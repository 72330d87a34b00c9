pub mod archive;
pub mod global_model_state;
pub mod laws;
pub mod model_selector;
pub mod placing;
pub mod pmx_renderer;
pub mod record_facts;
pub mod records;
pub mod seq_facts;
pub mod text;
pub mod tree_facts;
pub mod tree_node;
pub mod ui;
