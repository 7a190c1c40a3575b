pub mod breakpoint;
pub mod instruction_pointer;
pub mod source_map;
pub mod state;
pub mod stepper;
