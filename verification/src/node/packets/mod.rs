pub mod ack_packet;
pub mod flood_packet;
pub mod frame;
pub mod packet;
pub mod refuse_packet;
pub mod request_packet;
pub mod stream_packet;
pub mod utils;
