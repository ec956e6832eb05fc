//! A small MQTT 3.1.1 client library: a codec for the packets a QoS 0
//! publisher and subscriber exchange with a broker, and the decisions of the
//! client loops (CONNACK check, keep-alive timing, what to do after a read).

pub mod client;
pub mod codec;
