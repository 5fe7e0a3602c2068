pub mod buffer;
pub mod buffer_manager;
pub mod packet;
pub mod recording;
pub mod track;
