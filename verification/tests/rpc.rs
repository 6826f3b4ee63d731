use codeipc::packets::CodePacket;
use codeipc::rpc::{next_counter, ChannelServerImpl, IdCounter};

#[test]
fn counter_counts_from_zero() {
    let mut c = IdCounter::new();
    assert_eq!(next_counter(&mut c), 0);
    assert_eq!(next_counter(&mut c), 1);
    assert_eq!(next_counter(&mut c), 2);
}

#[test]
fn counters_do_not_share_ids() {
    let mut a = IdCounter::new();
    let mut b = IdCounter::new();
    assert_eq!(next_counter(&mut a), 0);
    assert_eq!(next_counter(&mut a), 1);
    assert_eq!(next_counter(&mut b), 0);
    assert_eq!(next_counter(&mut a), 2);
    assert_eq!(next_counter(&mut b), 1);
}

struct Echo;

impl ChannelServerImpl for Echo {
    fn handle_call(&self, method: String, arg: CodePacket) -> CodePacket {
        CodePacket::Array(vec![CodePacket::String(method), arg])
    }
}

#[test]
fn a_channel_answers_a_call() {
    let answer = Echo.handle_call("ping".to_string(), CodePacket::Int32(1));
    assert_eq!(
        answer,
        CodePacket::Array(vec![CodePacket::String("ping".to_string()), CodePacket::Int32(1)])
    );
}
