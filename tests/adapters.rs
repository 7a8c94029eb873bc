use std::cell::RefCell;
use std::rc::Rc;
use mpi_futures::buffer::{AnchoredBox, AnchoredBoxedSlice, AnchoredVec, Unanchor};
use mpi_futures::codec::{Decoder, Encoder, U8Codec, U8_TAG};
use mpi_futures::convert::{element_count, native_tag, request_count};
use mpi_futures::incoming::{incoming_start, incoming_step, IncomingStart, IncomingStep, SwitchState};
use mpi_futures::request_poll::RequestPoll;
use mpi_futures::send::{after_receiver, send_action, OneshotPoll, SendAction, SendPhase};
use mpi_futures::switch::{SwitchCore, SwitchStep};

#[test]
fn request_count_fits_c_int() {
    assert_eq!(request_count(0), Some(0));
    assert_eq!(request_count(12), Some(12));
    assert_eq!(request_count(i32::MAX as usize), Some(i32::MAX));
    assert_eq!(request_count(i32::MAX as usize + 1), None);
}

#[test]
fn native_tag_keeps_the_value() {
    assert_eq!(native_tag(0), 0);
    assert_eq!(native_tag(7), 7);
    assert_eq!(native_tag(0xFFFF), 0xFFFF);
}

#[test]
fn element_count_rejects_negative() {
    assert_eq!(element_count(4096), Some(4096));
    assert_eq!(element_count(0), Some(0));
    assert_eq!(element_count(-32766), None);
}

#[test]
fn u8_codec_round_trip() {
    let msg = b"hello world".to_vec();
    let (buf, tag) = U8Codec.encode(msg.clone());
    assert_eq!(tag, 0);
    assert_eq!(tag, U8_TAG);
    let mut codec = U8Codec;
    assert_eq!(codec.decode(buf), msg);
    assert_eq!(U8Codec.encode_bytes(vec![]).0, Vec::<u8>::new());
}

#[test]
fn variable_size_buffers() {
    let mut codec = U8Codec;
    for n in [0i32, 1, 7, 4096] {
        let b = codec.recv_buffer(n).unwrap();
        assert_eq!(b.len(), n as usize);
        assert!(b.iter().all(|x| *x == 0));
    }
    assert!(codec.buffer_for(-1).is_none());
}

#[test]
fn anchored_vec_gives_the_same_buffer_back() {
    let v = vec![1u8, 2, 3];
    let storage = v.as_ptr() as usize;
    let a = AnchoredVec::anchor(v);
    assert_eq!(a.len(), 3);
    let back: Vec<u8> = Vec::unanchor(a);
    assert_eq!(back, vec![1, 2, 3]);
    assert_eq!(back.as_ptr() as usize, storage);
}

#[test]
fn anchored_box_gives_the_same_box_back() {
    let b = Box::new(42u32);
    let back: Box<u32> = Box::unanchor(AnchoredBox::anchor(b));
    assert_eq!(*back, 42);
}

#[test]
fn close_twice_is_close_once() {
    let mut core: SwitchCore<u32, u32> = SwitchCore::new();
    core.pool.insert(1, 1, true);
    assert!(!core.is_stopped());
    assert_eq!(core.poll_step(), SwitchStep::Sweep);
    core.close();
    assert!(core.is_stopped());
    core.close();
    assert!(core.is_stopped());
    assert_eq!(core.poll_step(), SwitchStep::Finished);
    assert_eq!(core.pool.len(), 1);
}

#[test]
fn early_close_ends_the_stream() {
    let mut core: SwitchCore<u32, u32> = SwitchCore::new();
    assert_eq!(incoming_start(SwitchState::Open), IncomingStart::Probe);
    assert_eq!(incoming_step(None), IncomingStep::Rearm);
    core.close();
    let state = if core.is_stopped() { SwitchState::Closed } else { SwitchState::Open };
    assert_eq!(incoming_start(state), IncomingStart::EndOfStream);
    assert_eq!(incoming_start(SwitchState::Gone), IncomingStart::EndOfStream);
    assert_eq!(core.pool.len(), 0);
}

#[test]
fn probe_match_sizes_the_receive() {
    assert_eq!(incoming_step(Some(11)), IncomingStep::Receive(11));
    assert_eq!(incoming_step(Some(0)), IncomingStep::Receive(0));
    assert_eq!(incoming_step(Some(-32766)), IncomingStep::BadCount);
}

#[test]
fn send_state_machine() {
    assert_eq!(send_action(SendPhase::Pending, SwitchState::Open), SendAction::Post);
    assert_eq!(send_action(SendPhase::Pending, SwitchState::Closed), SendAction::Finish);
    assert_eq!(send_action(SendPhase::Pending, SwitchState::Gone), SendAction::Finish);
    assert_eq!(send_action(SendPhase::Started, SwitchState::Gone), SendAction::PollReceiver);
    assert_eq!(send_action(SendPhase::Done, SwitchState::Open), SendAction::Finish);
    assert_eq!(after_receiver(OneshotPoll::NotReady), (SendPhase::Started, false));
    assert_eq!(after_receiver(OneshotPoll::Ready), (SendPhase::Done, true));
    assert_eq!(after_receiver(OneshotPoll::Canceled), (SendPhase::Done, true));
}

#[test]
fn dropped_receive_still_completes_and_drains() {
    // the receive future is gone, but its slot completes and its buffer is
    // handed to a callback that finds no one to deliver to
    let delivered: Rc<RefCell<Option<Vec<u8>>>> = Rc::new(RefCell::new(None));
    let receiver_alive = false;
    let mut core: SwitchCore<u32, Box<dyn FnOnce()>> = SwitchCore::new();
    let mut codec = U8Codec;
    let anchor = AnchoredVec::anchor(codec.recv_buffer(5).unwrap());
    let sink = delivered.clone();
    core.pool.insert(9, Box::new(move || {
        let buf: Vec<u8> = Vec::unanchor(anchor);
        if receiver_alive {
            *sink.borrow_mut() = Some(buf);
        }
    }), true);
    let s = core.pool.settle(vec![0], &vec![0]).unwrap();
    for cb in s.callbacks {
        cb();
    }
    assert!(delivered.borrow().is_none());
    core.close();
    assert_eq!(core.poll_step(), SwitchStep::Finished);
    assert_eq!(core.pool.len(), 0);
}

#[test]
fn in_order_delivery_of_a_hundred_messages() {
    // one receive outstanding at a time: each sweep completes the only slot
    let mut pool: RequestPoll<u32, Vec<u8>> = RequestPoll::new();
    let mut got = Vec::new();
    for i in 0..100u8 {
        let mut codec = U8Codec;
        let (buf, _) = U8Codec.encode(vec![i]);
        let mut slot = codec.recv_buffer(buf.len() as i32).unwrap();
        slot.copy_from_slice(&buf);
        pool.insert(i as u32, slot, true);
        assert_eq!(pool.len(), 1);
        let s = pool.settle(vec![0], &vec![0]).unwrap();
        for b in s.callbacks {
            got.push(codec.decode(b)[0]);
        }
    }
    assert_eq!(got, (0..100u8).collect::<Vec<u8>>());
    assert_eq!(pool.len(), 0);
}

#[test]
fn ring_of_two_echo() {
    // two ranks, each with a switch; a send on one is the matched receive on
    // the other
    let mut cores: Vec<SwitchCore<u32, Option<Vec<u8>>>> = vec![SwitchCore::new(), SwitchCore::new()];
    let mut wire: Vec<(usize, Vec<u8>)> = Vec::new();
    for rank in 0..2usize {
        let (buf, tag) = U8Codec.encode(b"hello world".to_vec());
        assert_eq!(native_tag(tag), 0);
        wire.push(((rank + 1) % 2, buf));
        cores[rank].pool.insert(1, None, false);
    }
    for (dest, buf) in wire {
        let step = incoming_step(Some(buf.len() as i32));
        let len = match step {
            IncomingStep::Receive(n) => n,
            _ => panic!("no match"),
        };
        let mut slot = U8Codec.buffer_for(len as i32).unwrap();
        slot.copy_from_slice(&buf);
        cores[dest].pool.insert(2, Some(slot), true);
    }
    for rank in 0..2usize {
        let s = cores[rank].pool.settle(vec![0, 0], &vec![0, 1]).unwrap();
        let received: Vec<Vec<u8>> = s.callbacks.into_iter().flatten().collect();
        assert_eq!(received, vec![b"hello world".to_vec()]);
        cores[rank].close();
        assert_eq!(cores[rank].poll_step(), SwitchStep::Finished);
    }
}

#[test]
fn anchored_boxed_slice_gives_the_same_slice_back() {
    let b: Box<[u16]> = vec![4u16, 5, 6].into_boxed_slice();
    let storage = b.as_ptr() as usize;
    let a = AnchoredBoxedSlice::anchor(b);
    assert_eq!(a.len(), 3);
    let back: Box<[u16]> = Box::unanchor(a);
    assert_eq!(&*back, &[4u16, 5, 6][..]);
    assert_eq!(back.as_ptr() as usize, storage);
}

#[test]
fn u8_codec_encode_keeps_bytes_under_tag_zero() {
    assert_eq!(U8Codec.encode(vec![1u8, 2, 3]), (vec![1u8, 2, 3], 0));
    let mut codec = U8Codec;
    assert_eq!(codec.recv_buffer(3), Some(vec![0u8, 0, 0]));
    assert_eq!(codec.recv_buffer(-1), None);
    assert_eq!(codec.decode(vec![9u8, 8]), vec![9u8, 8]);
}
