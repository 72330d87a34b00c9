use pmx_viewer::archive::find_pmx_entry;
use pmx_viewer::global_model_state::HierarchyError;
use pmx_viewer::model_selector::Models;
use pmx_viewer::pmx_renderer::material_ranges;
use pmx_viewer::records::{BoneRecord, ModelInfo};
use pmx_viewer::ui::{
    fetch_bone_name, EguiBoneView, Encode, Lang, PMXBoneFlags, PMXInfoView, TabKind, Tabs,
    WeightKind,
};

fn bone(name: &str, english: &str, parent: i32) -> BoneRecord {
    BoneRecord { name: name.to_string(), english_name: english.to_string(), parent }
}

fn bones() -> Vec<BoneRecord> {
    vec![
        bone("センター", "center", -1),
        bone("腰", "hip", 0),
        bone("背骨", "spine", 1),
        bone("腕", "arm", 1),
    ]
}

#[test]
fn tabs_show_the_current_tab() {
    assert_eq!(Tabs(TabKind::Info).get_current_tab(), TabKind::Info);
    assert_eq!(Tabs(TabKind::Bone).get_current_tab(), TabKind::Bone);
    assert_eq!(Tabs(TabKind::Shader).get_current_tab(), TabKind::Shader);
}

#[test]
fn no_flags() {
    let flags = PMXBoneFlags::none();
    assert!(!flags.is_target_is_other_bone);
    assert!(!flags.deform_after_physics);
    assert!(!flags.allow_rotate);
    assert!(!flags.allow_translate);
    assert!(!flags.flag1);
}

#[test]
fn flags_from_a_flag_word() {
    assert_eq!(PMXBoneFlags::from(0), PMXBoneFlags::none());
    let all = PMXBoneFlags::from(0xffff);
    assert!(all.is_target_is_other_bone && all.deform_after_physics);
    assert!(all.allow_rotate && all.allow_translate);
    assert!(!all.flag1);
    let some = PMXBoneFlags::from(0x1002);
    assert_eq!(
        some,
        PMXBoneFlags {
            is_target_is_other_bone: false,
            deform_after_physics: true,
            allow_rotate: true,
            allow_translate: false,
            flag1: false,
        }
    );
    let other = PMXBoneFlags::from(0x0005 | 0x0ff8);
    assert!(other.is_target_is_other_bone && other.allow_translate);
    assert!(!other.allow_rotate && !other.deform_after_physics);
}

#[test]
fn names_of_encodings_and_weight_kinds() {
    assert_eq!(Encode::UTF16LE.to_string(), "UTF-16(LE)");
    assert_eq!(Encode::UTF8.to_string(), "UTF-8");
    assert_eq!(WeightKind::BDEF1.to_string(), "BDEF1");
    assert_eq!(WeightKind::BDEF2.to_string(), "BDEF2");
    assert_eq!(WeightKind::BDEF4.to_string(), "BDEF4");
    assert_eq!(WeightKind::Sdef.to_string(), "SDEF");
    assert_eq!(WeightKind::Qdef.to_string(), "QDEF");
}

#[test]
fn bone_names_by_language() {
    let bones = bones();
    assert_eq!(fetch_bone_name(&bones, Lang::Japanese, 1), "腰");
    assert_eq!(fetch_bone_name(&bones, Lang::English, 1), "hip");
    assert_eq!(fetch_bone_name(&bones, Lang::English, 3), "arm");
    assert_eq!(fetch_bone_name(&bones, Lang::English, 4), "-");
    assert_eq!(fetch_bone_name(&bones, Lang::Japanese, -1), "-");
}

#[test]
fn bone_page_opens_on_the_first_bone() {
    let view = EguiBoneView::new(bones()).unwrap();
    assert_eq!(view.current_displaying_bone, 0);
    assert_eq!(view.lang, Lang::Japanese);
    assert_eq!(view.current_bone().name, "センター");
    assert_eq!(view.bone_tree.walk(), vec![(0, 0), (1, 1), (2, 2), (2, 3)]);
    assert_eq!(view.parent_name(-1), "-");
    assert_eq!(view.parent_name(1), "腰");
}

#[test]
fn bone_page_without_root_is_refused() {
    let broken = vec![bone("a", "a", 1), bone("b", "b", 0)];
    assert_eq!(EguiBoneView::new(broken).err(), Some(HierarchyError::MissingRoot));
}

#[test]
fn bone_page_selects_nodes_only() {
    let mut view = EguiBoneView::new(bones()).unwrap();
    assert!(view.select(3));
    assert_eq!(view.current_displaying_bone, 3);
    assert_eq!(view.current_bone().english_name, "arm");
    assert!(!view.select(9));
    assert!(!view.select(-1));
    assert_eq!(view.current_displaying_bone, 3);
}

#[test]
fn bone_page_rebuilds_when_a_parent_changes() {
    let mut view = EguiBoneView::new(bones()).unwrap();
    assert!(view.select(2));
    assert_eq!(view.commit(bone("背骨2", "spine2", 1)), Ok(false));
    assert_eq!(view.bones[2].name, "背骨2");
    assert_eq!(view.bone_tree.walk(), vec![(0, 0), (1, 1), (2, 2), (2, 3)]);
    assert_eq!(view.commit(bone("背骨2", "spine2", 0)), Ok(true));
    assert_eq!(view.bones[2].parent, 0);
    assert_eq!(view.bone_tree.walk(), vec![(0, 0), (1, 1), (2, 3), (1, 2)]);
    view.lang = Lang::English;
    assert_eq!(view.parent_name(2), "spine2");
}

#[test]
fn bone_page_keeps_the_hierarchy_that_cannot_be_rebuilt() {
    let mut view = EguiBoneView::new(bones()).unwrap();
    assert_eq!(view.commit(bone("センター", "center", 2)), Err(HierarchyError::MissingRoot));
    assert_eq!(view.bones[0].parent, 2);
    assert_eq!(view.bone_tree.walk(), vec![(0, 0), (1, 1), (2, 2), (2, 3)]);
}

fn info() -> ModelInfo {
    ModelInfo {
        name: "モデル".to_string(),
        name_en: "model".to_string(),
        comment: "コメント".to_string(),
        comment_en: "comment".to_string(),
    }
}

#[test]
fn info_page_reports_a_change_once() {
    let mut view = PMXInfoView::new(info(), Encode::UTF8, 1);
    assert_eq!(view.lang, Lang::Japanese);
    assert_eq!(view.encode, Encode::UTF8);
    assert_eq!(view.model_info.name_en, "model");
    assert_eq!(view.query_updated_header(), None);
    view.choose_additional_uv(1);
    assert_eq!(view.query_updated_header(), None);
    view.choose_additional_uv(3);
    view.choose_additional_uv(3);
    assert_eq!(view.additional_uv, 3);
    assert_eq!(view.query_updated_header(), Some(3));
    assert_eq!(view.query_updated_header(), None);
    view.choose_additional_uv(4);
    view.choose_additional_uv(3);
    assert_eq!(view.query_updated_header(), Some(3));
}

#[test]
fn models_are_kept_in_order() {
    let mut models = Models::new();
    assert!(models.model.is_empty());
    models.new_model("first");
    models.new_model("second");
    let names: Vec<&str> = models.model.iter().map(|m| m.name.as_str()).collect();
    assert_eq!(names, vec!["first", "second"]);
}

#[test]
fn the_two_models_of_the_empty_selector() {
    let models = Models::dummy();
    let names: Vec<&str> = models.model.iter().map(|m| m.name.as_str()).collect();
    assert_eq!(names, vec!["ミライアカリ", "初音ミク"]);
}

#[test]
fn material_ranges_start_at_the_sum_of_the_counts_before() {
    let materials = material_ranges(&[6, 3, 9, 0, 12]);
    let ranges: Vec<(u32, u32)> =
        materials.iter().map(|m| (m.index_buffer_range.start, m.index_buffer_range.end)).collect();
    assert_eq!(ranges, vec![(0, 6), (6, 3), (9, 9), (18, 0), (18, 12)]);
    assert!(material_ranges(&[]).is_empty());
}

#[test]
fn the_last_entry_with_pmx_in_its_name_is_opened() {
    let names: Vec<String> =
        ["readme.txt", "model/a.pmx", "tex/skin.png", "model/b.pmx", "pm.x"]
            .iter()
            .map(|s| s.to_string())
            .collect();
    assert_eq!(find_pmx_entry(&names), Some(3));
    assert_eq!(find_pmx_entry(&names[..3]), Some(1));
    assert_eq!(find_pmx_entry(&names[..1]), None);
    assert_eq!(find_pmx_entry(&names[4..]), None);
    assert_eq!(find_pmx_entry(&["xpmxx".to_string(), "PMX".to_string()]), Some(0));
    assert_eq!(find_pmx_entry(&[]), None);
}
