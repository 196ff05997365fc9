use lds::client::{bind_request, bind_response, encode_request, Context, Contexts};
use lds::codec::{ldap_write_bind_request, ldap_write_search_request, parse_message};
use lds::error::Error;
use lds::ldap::{
    DerefAliases, Filter, FilterPresent, Message, MessageParams, MsgBind, MsgBindResponse,
    MsgSearch, MsgSearchResult, MsgSearchResultDone, MsgUnbind, SearchScope,
};

fn entry(id: u32, name: &str) -> Message {
    Message {
        id,
        params: MessageParams::SearchResult(MsgSearchResult { name: name.to_owned(), values: vec![] }),
    }
}

fn done(id: u32, res: u32) -> Message {
    Message { id, params: MessageParams::MsgSearchResultDone(MsgSearchResultDone { res }) }
}

fn pending(handle: &'static str) -> Context<&'static str> {
    Context { messages: Vec::new(), notif: handle }
}

#[test]
fn two_entries_and_done_are_released_together() {
    let mut table: Contexts<&'static str> = Contexts::new();
    assert!(table.add(7, pending("seven")).ok().unwrap().is_none());
    assert!(table.update(entry(7, "first")).is_none());
    assert!(table.update(entry(7, "second")).is_none());
    let (messages, handle) = table.update(done(7, 0)).unwrap();
    assert_eq!(handle, "seven");
    assert_eq!(messages.len(), 3);
    assert!(matches!(&messages[0].params, MessageParams::SearchResult(r) if r.name == "first"));
    assert!(matches!(&messages[1].params, MessageParams::SearchResult(r) if r.name == "second"));
    assert!(matches!(&messages[2].params, MessageParams::MsgSearchResultDone(d) if d.res == 0));
    assert!(table.pending_ids().is_empty());
    // a late duplicate is dropped
    assert!(table.update(done(7, 0)).is_none());
    assert!(table.update(entry(7, "late")).is_none());
    assert!(table.pending_ids().is_empty());
}

#[test]
fn fragments_of_an_unknown_id_are_dropped() {
    let mut table: Contexts<u8> = Contexts::new();
    assert!(table.add(1, Context { messages: Vec::new(), notif: 10 }).is_ok());
    assert!(table.update(done(2, 0)).is_none());
    assert_eq!(table.pending_ids(), vec![1]);
    let (messages, handle) = table.update(done(1, 5)).unwrap();
    assert_eq!(handle, 10);
    assert_eq!(messages.len(), 1);
}

#[test]
fn requests_are_kept_apart_by_id() {
    let mut table: Contexts<u8> = Contexts::new();
    assert!(table.add(1, Context { messages: Vec::new(), notif: 1 }).is_ok());
    assert!(table.add(2, Context { messages: Vec::new(), notif: 2 }).is_ok());
    assert!(table.update(entry(1, "a")).is_none());
    assert!(table.update(entry(2, "b")).is_none());
    let (messages, handle) = table.update(done(2, 0)).unwrap();
    assert_eq!(handle, 2);
    assert_eq!(messages.len(), 2);
    assert!(matches!(&messages[0].params, MessageParams::SearchResult(r) if r.name == "b"));
    let mut ids = table.pending_ids();
    ids.sort();
    assert_eq!(ids, vec![1]);
}

#[test]
fn add_replaces_and_remove_drops() {
    let mut table: Contexts<u8> = Contexts::new();
    assert!(table.add(1, Context { messages: Vec::new(), notif: 1 }).ok().unwrap().is_none());
    table.update(entry(1, "a"));
    let replaced = table.add(1, Context { messages: Vec::new(), notif: 2 }).ok().unwrap().unwrap();
    assert_eq!(replaced.notif, 1);
    assert_eq!(replaced.messages.len(), 1);
    let removed = table.remove(1).unwrap();
    assert_eq!(removed.notif, 2);
    assert!(removed.messages.is_empty());
    assert!(table.remove(1).is_none());
    assert!(table.update(done(1, 0)).is_none());
}

#[test]
fn every_kind_but_an_entry_ends_a_response() {
    let kinds = vec![
        MessageParams::Bind(MsgBind { version: 3, name: String::new(), password: String::new() }),
        MessageParams::BindResponse(MsgBindResponse {
            res: 0,
            matched_dn: String::new(),
            diag: String::new(),
        }),
        MessageParams::Search(MsgSearch {
            base_object: String::new(),
            scope: SearchScope::BaseObject,
            deref: DerefAliases::NeverDerefAliases,
            filter: Filter::Empty(),
            size_limit: 0,
            time_limit: 0,
        }),
        MessageParams::MsgSearchResultDone(MsgSearchResultDone { res: 0 }),
        MessageParams::Unbind(MsgUnbind {}),
    ];
    for params in kinds {
        let mut table: Contexts<u8> = Contexts::new();
        assert!(table.add(3, Context { messages: Vec::new(), notif: 0 }).is_ok());
        assert!(table.update(Message { id: 3, params }).is_some());
        assert!(table.pending_ids().is_empty());
    }
}

#[test]
fn close_hands_out_every_pending_handle_once() {
    let mut table: Contexts<&'static str> = Contexts::new();
    assert!(table.add(1, pending("one")).is_ok());
    assert!(table.add(2, pending("two")).is_ok());
    assert!(table.add(3, pending("three")).is_ok());
    table.update(entry(2, "x"));
    table.update(done(3, 0));
    assert!(!table.closed());
    let mut abandoned = table.close();
    abandoned.sort();
    assert_eq!(abandoned, vec![(1, "one"), (2, "two")]);
    assert!(table.closed());
    assert!(table.pending_ids().is_empty());
    assert!(table.close().is_empty());
    assert!(table.update(done(1, 0)).is_none());
}

#[test]
fn nothing_is_registered_once_the_connection_is_gone() {
    let mut table: Contexts<&'static str> = Contexts::new();
    assert!(table.close().is_empty());
    let refused = table.add(1, pending("one")).err().unwrap();
    assert_eq!(refused.notif, "one");
    assert!(table.pending_ids().is_empty());
    assert!(table.update(done(1, 0)).is_none());
    assert!(table.remove(1).is_none());
    assert!(table.closed());
}

#[test]
fn requests_are_encoded_and_other_kinds_refused() {
    let bind = bind_request(4, "n1", "p1");
    assert_eq!(encode_request(&bind).unwrap(), ldap_write_bind_request(4, "n1", "p1").unwrap());
    let search = MsgSearch {
        base_object: "b1".to_owned(),
        scope: SearchScope::SingleLevel,
        deref: DerefAliases::DerefAlways,
        filter: Filter::Present(FilterPresent { name: "pp".to_owned() }),
        size_limit: 0,
        time_limit: 0,
    };
    let expected = ldap_write_search_request(1, &search).unwrap();
    let msg = Message { id: 1, params: MessageParams::Search(search) };
    let bytes = encode_request(&msg).unwrap();
    assert_eq!(bytes, expected);
    assert_eq!(parse_message(&bytes).unwrap().1, bytes.len());
    assert!(matches!(encode_request(&done(1, 0)), Err(Error::InvalidData)));
    assert!(matches!(encode_request(&entry(1, "e")), Err(Error::InvalidData)));
    let unbind = Message { id: 1, params: MessageParams::Unbind(MsgUnbind {}) };
    assert!(matches!(encode_request(&unbind), Err(Error::InvalidData)));
    let long = bind_request(4, &"x".repeat(200), "p1");
    assert!(matches!(encode_request(&long), Err(Error::Unsupported)));
}

#[test]
fn bind_request_has_version_3() {
    let m = bind_request(9, "name", "secret");
    assert_eq!(m.id, 9);
    match m.params {
        MessageParams::Bind(b) => {
            assert_eq!(b.version, 3);
            assert_eq!(b.name, "name");
            assert_eq!(b.password, "secret");
        }
        _ => unreachable!(),
    }
}

#[test]
fn bind_response_wants_exactly_one_bind_response() {
    let response = |res: u32| Message {
        id: 1,
        params: MessageParams::BindResponse(MsgBindResponse {
            res,
            matched_dn: "dn".to_owned(),
            diag: String::new(),
        }),
    };
    let r = bind_response(vec![response(49)]).unwrap();
    assert_eq!(r.res, 49);
    assert_eq!(r.matched_dn, "dn");
    assert!(matches!(bind_response(vec![]), Err(Error::InvalidData)));
    assert!(matches!(bind_response(vec![response(0), response(0)]), Err(Error::InvalidData)));
    assert!(matches!(bind_response(vec![done(1, 0)]), Err(Error::InvalidData)));
}
