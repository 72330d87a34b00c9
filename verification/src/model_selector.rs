use vstd::prelude::*;

verus! {

/// A model that can be selected, by its name.
#[derive(Debug)]
pub struct Model {
    pub name: String,
}

/// The models that can be selected, in the order in which they were opened.
#[derive(Debug)]
pub struct Models {
    pub model: Vec<Model>,
}

/// The names of the models, in order.
pub open spec fn model_names(models: Seq<Model>) -> Seq<Seq<char>> {
    models.map_values(|m: Model| m.name@)
}

impl Models {
    /// No models.
    pub fn new() -> (models: Models)
        ensures
            model_names(models.model@) == Seq::<Seq<char>>::empty(),
    {
        let models = Models { model: Vec::new() };
        proof {
            assert(model_names(models.model@) =~= Seq::<Seq<char>>::empty());
        }
        models
    }

    /// The two models that the selector shows before any file is opened.
    pub fn dummy() -> (models: Models)
        ensures
            model_names(models.model@) == seq!["ミライアカリ"@, "初音ミク"@],
    {
        let mut models = Models::new();
        models.new_model("ミライアカリ");
        models.new_model("初音ミク");
        proof {
            assert(model_names(models.model@) =~= seq!["ミライアカリ"@, "初音ミク"@]);
        }
        models
    }

    /// Adds a model with the name `name` after the others.
    pub fn new_model(&mut self, name: &str)
        ensures
            model_names(final(self).model@) == model_names(old(self).model@).push(name@),
    {
        self.model.push(Model { name: name.to_owned() });
        proof {
            assert(model_names(self.model@) =~= model_names(old(self).model@).push(name@));
        }
    }
}

} // verus!
