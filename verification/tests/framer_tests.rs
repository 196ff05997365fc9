use lds::codec::{ldap_write_bind_request, ldap_write_search_res_done};
use lds::error::Error;
use lds::ldap::MessageParams;
use lds::tokiou::{DecodeContext, MAX_SIZE};

#[test]
fn framer_starts_empty() {
    let mut ctx = DecodeContext::new();
    assert_eq!(ctx.free(), MAX_SIZE);
    assert!(matches!(ctx.next_message(), Ok(None)));
}

#[test]
fn framer_default_is_empty() {
    let mut ctx = DecodeContext::default();
    assert_eq!(ctx.free(), MAX_SIZE);
    assert!(matches!(ctx.next_message(), Ok(None)));
}

#[test]
fn framer_decodes_a_message_fed_whole() {
    let bytes = ldap_write_bind_request(1, "xx", "heslo").unwrap();
    let mut ctx = DecodeContext::new();
    ctx.feed(&bytes).unwrap();
    let m = ctx.next_message().unwrap().unwrap();
    assert_eq!(m.id, 1);
    assert_eq!(ctx.free(), MAX_SIZE);
    assert!(matches!(ctx.next_message(), Ok(None)));
}

#[test]
fn framer_decodes_the_same_message_fed_byte_by_byte() {
    let bytes = ldap_write_bind_request(1, "xx", "heslo").unwrap();
    let mut whole = DecodeContext::new();
    whole.feed(&bytes).unwrap();
    let expected = format!("{:?}", whole.next_message().unwrap().unwrap());

    let mut ctx = DecodeContext::new();
    for (i, byte) in bytes.iter().enumerate() {
        assert!(matches!(ctx.next_message(), Ok(None)));
        ctx.feed(&[*byte]).unwrap();
        assert_eq!(ctx.free(), MAX_SIZE - i - 1);
    }
    let m = ctx.next_message().unwrap().unwrap();
    assert_eq!(format!("{:?}", m), expected);
}

#[test]
fn framer_decodes_the_same_message_in_every_split() {
    let bytes = ldap_write_bind_request(1, "xx", "heslo").unwrap();
    let mut whole = DecodeContext::new();
    whole.feed(&bytes).unwrap();
    let expected = format!("{:?}", whole.next_message().unwrap().unwrap());
    for cut in 1..bytes.len() {
        let mut ctx = DecodeContext::new();
        ctx.feed(&bytes[..cut]).unwrap();
        assert!(matches!(ctx.next_message(), Ok(None)));
        ctx.feed(&bytes[cut..]).unwrap();
        let m = ctx.next_message().unwrap().unwrap();
        assert_eq!(format!("{:?}", m), expected);
    }
}

#[test]
fn framer_keeps_what_follows_a_message() {
    let mut bytes = ldap_write_bind_request(1, "xx", "heslo").unwrap();
    let second = ldap_write_search_res_done(2, 0).unwrap();
    bytes.extend_from_slice(&second[..5]);
    let mut ctx = DecodeContext::new();
    ctx.feed(&bytes).unwrap();
    let m = ctx.next_message().unwrap().unwrap();
    assert!(matches!(m.params, MessageParams::Bind(_)));
    assert_eq!(ctx.free(), MAX_SIZE - 5);
    assert!(matches!(ctx.next_message(), Ok(None)));
    ctx.feed(&second[5..]).unwrap();
    let m = ctx.next_message().unwrap().unwrap();
    assert_eq!(m.id, 2);
    assert!(matches!(m.params, MessageParams::MsgSearchResultDone(_)));
    assert_eq!(ctx.free(), MAX_SIZE);
}

#[test]
fn framer_end_of_stream_is_connection_closed() {
    let mut ctx = DecodeContext::new();
    ctx.feed(&[0x30]).unwrap();
    assert_eq!(ctx.feed(&[]), Err(Error::ConnectionClosed));
    assert_eq!(ctx.free(), MAX_SIZE - 1);
}

#[test]
fn framer_malformed_is_an_error_and_changes_nothing() {
    let mut ctx = DecodeContext::new();
    ctx.feed(&[0x30, 0x05, 0x02, 0x01, 0x04, 0x43, 0x00]).unwrap();
    assert!(matches!(ctx.next_message(), Err(Error::Malformed)));
    assert_eq!(ctx.free(), MAX_SIZE - 7);
    assert!(matches!(ctx.next_message(), Err(Error::Malformed)));
}

#[test]
fn framer_refuses_more_than_its_capacity() {
    let mut ctx = DecodeContext::new();
    assert_eq!(ctx.feed(&vec![0u8; MAX_SIZE + 1]), Err(Error::TooLarge));
    assert_eq!(ctx.free(), MAX_SIZE);
    let mut start = vec![0x30u8, 0x83, 0x01, 0x00, 0x00];
    start.resize(MAX_SIZE - 1, 0);
    ctx.feed(&start).unwrap();
    assert!(matches!(ctx.next_message(), Ok(None)));
    assert_eq!(ctx.feed(&[0, 0]), Err(Error::TooLarge));
    ctx.feed(&[0]).unwrap();
    assert_eq!(ctx.free(), 0);
    assert!(matches!(ctx.next_message(), Err(Error::TooLarge)));
}
