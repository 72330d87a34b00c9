use vstd::prelude::*;
use crate::global_model_state::{BoneTree, HierarchyError};
use crate::records::{has_sole_root, links_of, BoneRecord, ModelInfo};
use crate::tree_facts::lemma_mirror_nodes_are_linked;
use crate::tree_node::built_from;

verus! {

/// The pages of the editor.
#[derive(Copy, Clone, Debug, Eq, PartialEq, Structural)]
pub enum TabKind {
    Info,
    Vertex,
    Face,
    Material,
    Bone,
    Morph,
    Frame,
    RigidBody,
    Joint,
    SoftBody,
    View,
    TextureView,
    Shader,
}

/// The page that is shown.
#[derive(Debug)]
pub struct Tabs(pub TabKind);

impl Tabs {
    /// The page that is shown.
    pub fn get_current_tab(&self) -> (tab: TabKind)
        ensures
            tab == self.0,
    {
        self.0
    }
}

/// Which of the two names of a bone or a model is shown.
#[derive(Debug, Copy, Clone, Eq, PartialEq, Structural)]
pub enum Lang {
    English,
    Japanese,
}

/// The name of `bone` in the language `lang`.
pub open spec fn name_in(bone: BoneRecord, lang: Lang) -> Seq<char> {
    match lang {
        Lang::English => bone.english_name@,
        Lang::Japanese => bone.name@,
    }
}

/// The name to show for the bone at `index`: its name in the language
/// `lang`, or a dash where `index` is no position of `bones`.
pub fn fetch_bone_name(bones: &[BoneRecord], lang: Lang, index: i32) -> (name: &str)
    ensures
        name@ == if 0 <= index < bones@.len() {
            name_in(bones@[index as int], lang)
        } else {
            "-"@
        },
{
    if index >= 0 && (index as usize) < bones.len() {
        let bone = &bones[index as usize];
        match lang {
            Lang::English => bone.english_name.as_str(),
            Lang::Japanese => bone.name.as_str(),
        }
    } else {
        "-"
    }
}

/// The flags of a bone that the editor shows, each as a truth value.
#[derive(Clone, Copy, Debug, PartialEq, Eq, Structural)]
pub struct PMXBoneFlags {
    pub is_target_is_other_bone: bool,
    pub deform_after_physics: bool,
    pub allow_rotate: bool,
    pub allow_translate: bool,
    pub flag1: bool,
}

/// The bit of a bone's flag word that says that its tip is another bone.
pub const CONNECT_TO_OTHER_BONE: u16 = 0x0001;

/// The bit that says that the bone can be rotated.
pub const ROTATABLE: u16 = 0x0002;

/// The bit that says that the bone can be moved.
pub const TRANSLATABLE: u16 = 0x0004;

/// The bit that says that the bone is deformed after physics.
pub const PHYSICS_AFTER_DEFORM: u16 = 0x1000;

impl PMXBoneFlags {
    /// No flag set.
    pub fn none() -> (flags: PMXBoneFlags)
        ensures
            flags == (PMXBoneFlags {
                is_target_is_other_bone: false,
                deform_after_physics: false,
                allow_rotate: false,
                allow_translate: false,
                flag1: false,
            }),
    {
        PMXBoneFlags {
            is_target_is_other_bone: false,
            deform_after_physics: false,
            allow_rotate: false,
            allow_translate: false,
            flag1: false,
        }
    }

    /// The flags that the flag word `bits` of a bone holds.
    pub open spec fn of_bits(bits: u16) -> PMXBoneFlags {
        PMXBoneFlags {
            is_target_is_other_bone: bits & CONNECT_TO_OTHER_BONE == CONNECT_TO_OTHER_BONE,
            deform_after_physics: bits & PHYSICS_AFTER_DEFORM == PHYSICS_AFTER_DEFORM,
            allow_rotate: bits & ROTATABLE == ROTATABLE,
            allow_translate: bits & TRANSLATABLE == TRANSLATABLE,
            flag1: false,
        }
    }
}

impl From<u16> for PMXBoneFlags {
    /// Reads the flags out of the flag word of a bone.
    fn from(bits: u16) -> (flags: PMXBoneFlags) {
        PMXBoneFlags {
            is_target_is_other_bone: bits & CONNECT_TO_OTHER_BONE == CONNECT_TO_OTHER_BONE,
            deform_after_physics: bits & PHYSICS_AFTER_DEFORM == PHYSICS_AFTER_DEFORM,
            allow_rotate: bits & ROTATABLE == ROTATABLE,
            allow_translate: bits & TRANSLATABLE == TRANSLATABLE,
            flag1: false,
        }
    }
}

impl vstd::std_specs::convert::FromSpecImpl<u16> for PMXBoneFlags {
    open spec fn obeys_from_spec() -> bool {
        true
    }

    open spec fn from_spec(bits: u16) -> PMXBoneFlags {
        PMXBoneFlags::of_bits(bits)
    }
}

/// How the text of a model file is encoded.
#[derive(Debug, Eq, PartialEq, Copy, Clone, Structural)]
pub enum Encode {
    UTF16LE,
    UTF8,
}

impl Encode {
    /// The name of the encoding.
    pub fn to_string(&self) -> (name: String)
        ensures
            name@ == match *self {
                Encode::UTF16LE => "UTF-16(LE)"@,
                Encode::UTF8 => "UTF-8"@,
            },
    {
        match self {
            Encode::UTF16LE => "UTF-16(LE)".to_owned(),
            Encode::UTF8 => "UTF-8".to_owned(),
        }
    }
}

/// How a vertex follows its bones.
#[derive(Debug, Copy, Clone, Eq, PartialEq, Structural)]
pub enum WeightKind {
    BDEF1,
    BDEF2,
    BDEF4,
    Sdef,
    Qdef,
}

impl WeightKind {
    /// The name of the kind.
    pub fn to_string(&self) -> (name: String)
        ensures
            name@ == match *self {
                WeightKind::BDEF1 => "BDEF1"@,
                WeightKind::BDEF2 => "BDEF2"@,
                WeightKind::BDEF4 => "BDEF4"@,
                WeightKind::Sdef => "SDEF"@,
                WeightKind::Qdef => "QDEF"@,
            },
    {
        match self {
            WeightKind::BDEF1 => "BDEF1",
            WeightKind::BDEF2 => "BDEF2",
            WeightKind::BDEF4 => "BDEF4",
            WeightKind::Sdef => "SDEF",
            WeightKind::Qdef => "QDEF",
        }.to_owned()
    }
}

/// The state of the bone page: the bones, the hierarchy that is shown of
/// them, the bone that is selected and the language of the names.
#[derive(Debug)]
pub struct EguiBoneView {
    pub bones: Vec<BoneRecord>,
    pub current_displaying_bone: i32,
    pub bone_tree: BoneTree,
    pub lang: Lang,
}

impl EguiBoneView {
    /// The hierarchy is well formed, each of its nodes is the position of a
    /// bone, and so is the selection.
    pub open spec fn well_formed(&self) -> bool {
        &&& self.bones@.len() <= i32::MAX
        &&& self.bone_tree@.well_formed()
        &&& forall|x: int| #[trigger] self.bone_tree@.has_id(x) ==> 0 <= x < self.bones@.len()
        &&& 0 <= self.current_displaying_bone < self.bones@.len()
    }

    /// The page for `bones`, with their hierarchy built, the first bone
    /// selected and the names in Japanese.
    pub fn new(bones: Vec<BoneRecord>) -> (res: Result<EguiBoneView, HierarchyError>)
        requires
            bones@.len() <= i32::MAX,
        ensures
            match res {
                Ok(view) => {
                    &&& view.well_formed()
                    &&& view.bones == bones
                    &&& view.current_displaying_bone == 0
                    &&& view.lang == Lang::Japanese
                    &&& built_from(view.bone_tree@, bones@)
                },
                Err(e) => e == HierarchyError::MissingRoot && !has_sole_root(links_of(bones@)),
            },
    {
        let tree = match BoneTree::from_iter(bones.as_slice()) {
            Ok(tree) => tree,
            Err(e) => {
                return Err(e);
            },
        };
        proof {
            lemma_built_within(tree, bones@);
        }
        Ok(
            EguiBoneView {
                bones,
                current_displaying_bone: 0,
                bone_tree: tree,
                lang: Lang::Japanese,
            },
        )
    }

    /// Selects the bone `id` where it is a node of the hierarchy, and says
    /// whether it is.
    pub fn select(&mut self, id: i32) -> (selected: bool)
        requires
            old(self).well_formed(),
        ensures
            final(self).well_formed(),
            selected == old(self).bone_tree@.has_id(id as int),
            final(self).current_displaying_bone == if selected {
                id
            } else {
                old(self).current_displaying_bone
            },
            final(self).bones == old(self).bones,
            final(self).bone_tree == old(self).bone_tree,
            final(self).lang == old(self).lang,
    {
        if self.bone_tree.contains(id) {
            self.current_displaying_bone = id;
            true
        } else {
            false
        }
    }

    /// The bone that is selected.
    pub fn current_bone(&self) -> (bone: &BoneRecord)
        requires
            self.well_formed(),
        ensures
            *bone == self.bones@[self.current_displaying_bone as int],
    {
        &self.bones[self.current_displaying_bone as usize]
    }

    /// The name to show for the parent `parent` of a bone: a dash where the
    /// bone has none, else the name of the parent in the language of the
    /// page.
    pub fn parent_name(&self, parent: i32) -> (name: &str)
        requires
            parent < self.bones@.len(),
        ensures
            name@ == if parent < 0 {
                "-"@
            } else {
                name_in(self.bones@[parent as int], self.lang)
            },
    {
        if parent < 0 {
            "-"
        } else {
            fetch_bone_name(self.bones.as_slice(), self.lang, parent)
        }
    }

    /// Puts `edited` in the place of the selected bone. Where that changes
    /// the parent of the bone, the hierarchy is built anew from all bones,
    /// and the result says so; where it cannot be built, the hierarchy that
    /// was shown stays.
    pub fn commit(&mut self, edited: BoneRecord) -> (res: Result<bool, HierarchyError>)
        requires
            old(self).well_formed(),
        ensures
            final(self).well_formed(),
            final(self).bones@ == old(self).bones@.update(
                old(self).current_displaying_bone as int,
                edited,
            ),
            final(self).current_displaying_bone == old(self).current_displaying_bone,
            final(self).lang == old(self).lang,
            match res {
                Ok(rebuilt) => {
                    &&& rebuilt == (edited.parent != old(self).bones@[old(
                        self,
                    ).current_displaying_bone as int].parent)
                    &&& rebuilt ==> built_from(final(self).bone_tree@, final(self).bones@)
                    &&& !rebuilt ==> final(self).bone_tree == old(self).bone_tree
                },
                Err(e) => {
                    &&& e == HierarchyError::MissingRoot
                    &&& !has_sole_root(links_of(final(self).bones@))
                    &&& final(self).bone_tree == old(self).bone_tree
                },
            },
    {
        let at = self.current_displaying_bone as usize;
        let moved = edited.parent != self.bones[at].parent;
        self.bones[at] = edited;
        if !moved {
            return Ok(false);
        }
        match BoneTree::from_iter(self.bones.as_slice()) {
            Ok(tree) => {
                proof {
                    lemma_built_within(tree, self.bones@);
                }
                self.bone_tree = tree;
                Ok(true)
            },
            Err(e) => Err(e),
        }
    }
}

/// The nodes of a hierarchy built from bones are positions of bones.
proof fn lemma_built_within(tree: BoneTree, bones: Seq<BoneRecord>)
    requires
        built_from(tree@, bones),
    ensures
        forall|x: int| #[trigger] tree@.has_id(x) ==> 0 <= x < bones.len(),
{
    assert forall|x: int| #[trigger] tree@.has_id(x) implies 0 <= x < bones.len() by {
        if x != tree@.id {
            lemma_mirror_nodes_are_linked(tree@, links_of(bones), x);
        }
    }
}

/// The state of the info page: what the file says of the model, the
/// encoding of its text, the number of additional texture coordinates of a
/// vertex, and whether that number was changed since it was last asked for.
#[derive(Debug)]
pub struct PMXInfoView {
    pub model_info: ModelInfo,
    pub encode: Encode,
    pub lang: Lang,
    pub additional_uv: u8,
    pub additional_uv_changed: bool,
}

impl PMXInfoView {
    /// The page as it opens: names in Japanese, nothing changed.
    pub fn new(model_info: ModelInfo, encode: Encode, additional_uv: u8) -> (view: PMXInfoView)
        ensures
            view.model_info == model_info,
            view.encode == encode,
            view.lang == Lang::Japanese,
            view.additional_uv == additional_uv,
            !view.additional_uv_changed,
    {
        PMXInfoView {
            model_info,
            encode,
            lang: Lang::Japanese,
            additional_uv,
            additional_uv_changed: false,
        }
    }

    /// Takes the number of additional texture coordinates that was chosen,
    /// and notes a change where it differs from the number before.
    pub fn choose_additional_uv(&mut self, chosen: u8)
        ensures
            final(self).additional_uv == chosen,
            final(self).additional_uv_changed == (old(self).additional_uv_changed || chosen != old(
                self,
            ).additional_uv),
            final(self).model_info == old(self).model_info,
            final(self).encode == old(self).encode,
            final(self).lang == old(self).lang,
    {
        if chosen != self.additional_uv {
            self.additional_uv_changed = true;
        }
        self.additional_uv = chosen;
    }

    /// The number of additional texture coordinates, where it was changed
    /// since this was last asked; the change counts as seen from then on.
    pub fn query_updated_header(&mut self) -> (updated: Option<u8>)
        ensures
            updated == if old(self).additional_uv_changed {
                Some(old(self).additional_uv)
            } else {
                None
            },
            !final(self).additional_uv_changed,
            final(self).additional_uv == old(self).additional_uv,
            final(self).model_info == old(self).model_info,
            final(self).encode == old(self).encode,
            final(self).lang == old(self).lang,
    {
        if self.additional_uv_changed {
            self.additional_uv_changed = false;
            Some(self.additional_uv)
        } else {
            None
        }
    }
}

} // verus!
