pub mod dictionary_processor;
pub mod password_gen_processor;
pub mod processor;
