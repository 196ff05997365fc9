use lds::asn1::Cursor;
use lds::codec::{
    ldap_read_filter, ldap_read_filter_and, ldap_read_filter_attr_desc,
    ldap_read_filter_attr_val_assertion, ldap_write_bind_request, ldap_write_bind_response,
    ldap_write_search_request, ldap_write_search_res_done, ldap_write_search_res_entry,
    parse_message,
};
use lds::error::Error;
use lds::ldap::{
    DerefAliases, Filter, FilterAnd, FilterAttributeValueAssertion, FilterPresent, Message,
    MessageParams, MsgSearch, PartialAttribute, SearchScope,
};

#[test]
fn search_test() {
    let d1 = parse_message(hex::decode("3029020102632404000a01020a0100020100020100010100a00f8703617861a30804027373040273733000".as_bytes()).unwrap().as_ref()).unwrap();
    println!("{:?}", d1);
    assert_eq!(d1.1, 43);
    let m = d1.0;
    assert_eq!(m.id, 2);
    if let MessageParams::Search(s) = m.params {
        assert_eq!(s.base_object, "");
        assert_eq!(s.scope as u32, 2);
        assert_eq!(s.scope, SearchScope::WholeSubtree);
        assert_eq!(s.deref as u32, 0);
        assert_eq!(s.deref, DerefAliases::NeverDerefAliases);
        assert_eq!(s.size_limit, 0);
        assert_eq!(s.time_limit, 0);
        if let Filter::And(fa) = s.filter {
            assert_eq!(fa.items.len(), 2);
            if let Filter::EqualityMatch(fa1) = &fa.items[1] {
                assert_eq!(fa1.name, "ss");
                assert_eq!(fa1.value, "ss");
            } else {
                unreachable!();
            }
            if let Filter::Present(fa1) = &fa.items[0] {
                assert_eq!(fa1.name, "axa");
            } else {
                unreachable!();
            }
        } else {
            unreachable!();
        }
    } else {
        unreachable!();
    }
}

#[test]
fn bind_test() {
    let d1 = parse_message(hex::decode("3013020101600e0201030402787880056865736c6f".as_bytes()).unwrap().as_ref()).unwrap();
    println!("{:?}", d1);
    assert_eq!(d1.1, 21);
    let m = d1.0;
    assert_eq!(m.id, 1);
    if let MessageParams::Bind(s) = m.params {
        assert_eq!(s.name, "xx");
        assert_eq!(s.password, "heslo");
        assert_eq!(s.version, 3);
    } else {
        unreachable!();
    }
}

fn decode(bytes: &[u8]) -> Message {
    let (message, used) = parse_message(bytes).unwrap();
    assert_eq!(used, bytes.len());
    message
}

fn present(name: &str) -> Filter {
    Filter::Present(FilterPresent { name: name.to_owned() })
}

fn equality(name: &str, value: &str) -> Filter {
    Filter::EqualityMatch(FilterAttributeValueAssertion {
        name: name.to_owned(),
        value: value.to_owned(),
    })
}

#[test]
fn bind_request_bytes_and_round_trip() {
    let bytes = ldap_write_bind_request(1, "xx", "heslo").unwrap();
    assert_eq!(hex::encode(&bytes), "3013020101600e0201030402787880056865736c6f");
    let m = decode(&bytes);
    assert_eq!(m.id, 1);
    match m.params {
        MessageParams::Bind(b) => {
            assert_eq!(b.version, 3);
            assert_eq!(b.name, "xx");
            assert_eq!(b.password, "heslo");
        }
        _ => unreachable!(),
    }
}

#[test]
fn bind_request_with_empty_strings_round_trips() {
    let bytes = ldap_write_bind_request(0, "", "").unwrap();
    assert_eq!(hex::encode(&bytes), "300c02010060070201030400 8000".replace(' ', ""));
    match decode(&bytes).params {
        MessageParams::Bind(b) => {
            assert_eq!(b.name, "");
            assert_eq!(b.password, "");
        }
        _ => unreachable!(),
    }
}

#[test]
fn bind_without_password_defaults_to_empty() {
    let bytes = hex::decode("300c020107600702010304027878").unwrap();
    let (m, used) = parse_message(&bytes).unwrap();
    assert_eq!(used, 14);
    assert_eq!(m.id, 7);
    match m.params {
        MessageParams::Bind(b) => {
            assert_eq!(b.name, "xx");
            assert_eq!(b.password, "");
        }
        _ => unreachable!(),
    }
}

#[test]
fn bind_with_a_password_that_is_no_string_is_malformed() {
    // the password field is there, its contents are not UTF-8
    let bytes = hex::decode("300f020101600a02010304027878 8001ff".replace(' ', "")).unwrap();
    assert!(matches!(parse_message(&bytes), Err(Error::Malformed)));
    // the password field is cut short
    let bytes = hex::decode("300f020101600a02010304027878 800568".replace(' ', "")).unwrap();
    assert!(matches!(parse_message(&bytes), Err(Error::Malformed)));
    // one byte after the name is no field
    let bytes = hex::decode("300d020101600802010304027878 80".replace(' ', "")).unwrap();
    assert!(matches!(parse_message(&bytes), Err(Error::Malformed)));
    // the same request with a password that is a string
    let bytes = hex::decode("300f020101600a02010304027878 800170".replace(' ', "")).unwrap();
    match parse_message(&bytes).unwrap().0.params {
        MessageParams::Bind(b) => assert_eq!(b.password, "p"),
        _ => unreachable!(),
    }
}

#[test]
fn bind_response_round_trip() {
    let bytes = ldap_write_bind_response(5).unwrap();
    assert_eq!(hex::encode(&bytes), "300c02010561070a010004000400");
    let m = decode(&bytes);
    assert_eq!(m.id, 5);
    match m.params {
        MessageParams::BindResponse(r) => {
            assert_eq!(r.res, 0);
            assert_eq!(r.matched_dn, "");
            assert_eq!(r.diag, "");
        }
        _ => unreachable!(),
    }
}

#[test]
fn search_request_round_trip_with_nested_filter() {
    let msg = MsgSearch {
        base_object: "dc=x".to_owned(),
        scope: SearchScope::SingleLevel,
        deref: DerefAliases::DerefAlways,
        filter: Filter::And(FilterAnd {
            items: vec![
                present("axa"),
                equality("ss", "tt"),
                Filter::And(FilterAnd { items: vec![present("")] }),
            ],
        }),
        size_limit: 300,
        time_limit: 7,
    };
    let bytes = ldap_write_search_request(2, &msg).unwrap();
    assert_eq!(
        hex::encode(&bytes),
        "3030020102632b040464633d780a01010a010302020 12c020107010100a0138703617861a3080402737304027474a0028700"
            .replace(' ', "")
    );
    let m = decode(&bytes);
    assert_eq!(m.id, 2);
    match m.params {
        MessageParams::Search(s) => {
            assert_eq!(format!("{:?}", s), format!("{:?}", msg));
        }
        _ => unreachable!(),
    }
}

#[test]
fn search_request_with_empty_filter_does_not_round_trip() {
    let msg = MsgSearch {
        base_object: String::new(),
        scope: SearchScope::BaseObject,
        deref: DerefAliases::NeverDerefAliases,
        filter: Filter::Empty(),
        size_limit: 0,
        time_limit: 0,
    };
    let bytes = ldap_write_search_request(2, &msg).unwrap();
    assert_eq!(hex::encode(&bytes), "3016020102631104000a01000a0100020100020100010100");
    assert!(matches!(parse_message(&bytes), Err(Error::Malformed)));
}

#[test]
fn search_result_entry_round_trip() {
    let attrs = vec![
        PartialAttribute {
            name: "a1".to_owned(),
            values: vec!["aaa".to_owned(), "bbbb".to_owned()],
        },
        PartialAttribute { name: "a2".to_owned(), values: vec![] },
        PartialAttribute { name: "".to_owned(), values: vec!["".to_owned()] },
    ];
    let bytes = ldap_write_search_res_entry(9, "n1", &attrs).unwrap();
    assert_eq!(
        hex::encode(&bytes),
        "302e0201096429 04026e31 3023 3011 04026131 310b 0403616161 040462626262 3006 04026132 3100 3006 0400 3102 0400"
            .replace(' ', "")
    );
    let m = decode(&bytes);
    assert_eq!(m.id, 9);
    match m.params {
        MessageParams::SearchResult(r) => {
            assert_eq!(r.name, "n1");
            assert_eq!(format!("{:?}", r.values), format!("{:?}", attrs));
        }
        _ => unreachable!(),
    }
}

#[test]
fn search_result_done_round_trip() {
    let bytes = ldap_write_search_res_done(3, 1).unwrap();
    assert_eq!(hex::encode(&bytes), "3010020103650b0a01010402613104026132");
    let m = decode(&bytes);
    assert_eq!(m.id, 3);
    match m.params {
        MessageParams::MsgSearchResultDone(d) => assert_eq!(d.res, 1),
        _ => unreachable!(),
    }
    let bytes = ldap_write_search_res_done(3, 255).unwrap();
    match decode(&bytes).params {
        MessageParams::MsgSearchResultDone(d) => assert_eq!(d.res, 255),
        _ => unreachable!(),
    }
    assert!(matches!(ldap_write_search_res_done(3, 256), Err(Error::Unsupported)));
}

#[test]
fn unbind_is_decoded() {
    let bytes = hex::decode("30050201044200").unwrap();
    let (m, used) = parse_message(&bytes).unwrap();
    assert_eq!(used, 7);
    assert_eq!(m.id, 4);
    assert!(matches!(m.params, MessageParams::Unbind(_)));
}

#[test]
fn writers_refuse_what_does_not_fit() {
    let long = "x".repeat(128);
    assert!(matches!(ldap_write_bind_request(1, &long, ""), Err(Error::Unsupported)));
    let sixty = "y".repeat(60);
    assert!(matches!(ldap_write_bind_request(1, &sixty, &sixty), Err(Error::Unsupported)));
    assert!(matches!(ldap_write_bind_request(0x100_0000, "a", "b"), Err(Error::Unsupported)));
    assert!(matches!(ldap_write_bind_response(0x100_0000), Err(Error::Unsupported)));
    let attrs = vec![PartialAttribute { name: long.clone(), values: vec![] }];
    assert!(matches!(ldap_write_search_res_entry(1, "n", &attrs), Err(Error::Unsupported)));
    let msg = MsgSearch {
        base_object: String::new(),
        scope: SearchScope::BaseObject,
        deref: DerefAliases::NeverDerefAliases,
        filter: present(&long),
        size_limit: 0,
        time_limit: 0,
    };
    assert!(matches!(ldap_write_search_request(1, &msg), Err(Error::Unsupported)));
}

#[test]
fn parse_needs_more_data_on_every_strict_prefix() {
    let bytes = ldap_write_bind_request(1, "xx", "heslo").unwrap();
    for k in 0..bytes.len() {
        assert!(matches!(parse_message(&bytes[..k]), Err(Error::NeedMoreData)));
    }
    assert!(parse_message(&bytes).is_ok());
}

#[test]
fn parse_ignores_what_follows_the_message() {
    let mut bytes = ldap_write_bind_request(1, "xx", "heslo").unwrap();
    let alone = format!("{:?}", parse_message(&bytes).unwrap());
    bytes.extend_from_slice(&[0x30, 0x80, 0xff]);
    assert_eq!(format!("{:?}", parse_message(&bytes).unwrap()), alone);
}

#[test]
fn parse_long_form_outer_length() {
    let bytes = hex::decode("3081050201044200ff").unwrap();
    assert!(matches!(parse_message(&bytes[..3]), Err(Error::NeedMoreData)));
    assert!(matches!(parse_message(&bytes[..7]), Err(Error::NeedMoreData)));
    let (m, used) = parse_message(&bytes).unwrap();
    assert_eq!(used, 8);
    assert_eq!(m.id, 4);
    let cut = hex::decode("30820001").unwrap();
    assert!(matches!(parse_message(&cut), Err(Error::NeedMoreData)));
}

#[test]
fn parse_malformed_messages() {
    // an application tag that is none of the six kinds
    let unknown = hex::decode("30050201044300").unwrap();
    assert!(matches!(parse_message(&unknown), Err(Error::Malformed)));
    // a scope that is no scope
    let scope = hex::decode("3018020102631304000a01030a01000201000201000101008700").unwrap();
    assert!(matches!(parse_message(&scope), Err(Error::Malformed)));
    // an alias policy that is no policy
    let deref = hex::decode("3018020102631304000a01020a01040201000201000101008700").unwrap();
    assert!(matches!(parse_message(&deref), Err(Error::Malformed)));
    // a name that is not UTF-8
    let name = hex::decode("300c0201016007020103 0402c328".replace(' ', "")).unwrap();
    assert!(matches!(parse_message(&name), Err(Error::Malformed)));
    // a bind request whose name reaches past the declared length
    let past = hex::decode("300a020101600502010304027878").unwrap();
    assert!(matches!(parse_message(&past), Err(Error::Malformed)));
    // an outer length that no usize holds
    let huge = hex::decode("308901000000000000000000").unwrap();
    assert!(matches!(parse_message(&huge), Err(Error::Malformed)));
}

#[test]
fn filter_readers() {
    let bytes = hex::decode("0f8703617861a3080402737304027373ff").unwrap();
    let mut cursor = Cursor::new(&bytes);
    let and = ldap_read_filter_and(&mut cursor).unwrap();
    assert_eq!(and.items.len(), 2);
    assert_eq!(cursor.position(), 16);

    let bytes = hex::decode("080402737304027474").unwrap();
    let a = ldap_read_filter_attr_val_assertion(&mut Cursor::new(&bytes)).unwrap();
    assert_eq!(a.name, "ss");
    assert_eq!(a.value, "tt");

    let bytes = hex::decode("03617861").unwrap();
    let p = ldap_read_filter_attr_desc(&mut Cursor::new(&bytes)).unwrap();
    assert_eq!(p.name, "axa");

    let bytes = hex::decode("a5ff").unwrap();
    let mut cursor = Cursor::new(&bytes);
    assert!(matches!(ldap_read_filter(&mut cursor), Ok(Filter::Empty())));
    assert_eq!(cursor.position(), 1);
}

#[test]
fn filter_readers_reject() {
    // an item that reaches past the declared length of the conjunction
    let bytes = hex::decode("a0048703617861").unwrap();
    let mut cursor = Cursor::new(&bytes);
    assert!(matches!(ldap_read_filter(&mut cursor), Err(Error::Malformed)));
    assert_eq!(cursor.position(), 0);
    // a declared size above 1024
    let mut bytes = hex::decode("87820401").unwrap();
    bytes.extend_from_slice(&[0x61; 1025]);
    assert!(matches!(ldap_read_filter(&mut Cursor::new(&bytes)), Err(Error::Malformed)));
    let mut bytes = hex::decode("87820400").unwrap();
    bytes.extend_from_slice(&[0x61; 1024]);
    assert!(matches!(ldap_read_filter(&mut Cursor::new(&bytes)), Ok(Filter::Present(_))));
    // nothing to read
    assert!(matches!(ldap_read_filter(&mut Cursor::new(&[])), Err(Error::Malformed)));
}

#[test]
fn scope_and_deref_from_numbers() {
    assert_eq!(SearchScope::try_from(0), Ok(SearchScope::BaseObject));
    assert_eq!(SearchScope::try_from(1), Ok(SearchScope::SingleLevel));
    assert_eq!(SearchScope::try_from(2), Ok(SearchScope::WholeSubtree));
    assert_eq!(SearchScope::try_from(3), Err(Error::InvalidData));
    assert_eq!(SearchScope::try_from(u32::MAX), Err(Error::InvalidData));
    assert_eq!(DerefAliases::try_from(0), Ok(DerefAliases::NeverDerefAliases));
    assert_eq!(DerefAliases::try_from(1), Ok(DerefAliases::DerefInSearching));
    assert_eq!(DerefAliases::try_from(2), Ok(DerefAliases::DerefFindingBaseObj));
    assert_eq!(DerefAliases::try_from(3), Ok(DerefAliases::DerefAlways));
    assert_eq!(DerefAliases::try_from(4), Err(Error::InvalidData));
    assert_eq!(DerefAliases::try_from(u32::MAX), Err(Error::InvalidData));
    assert_eq!(SearchScope::WholeSubtree.code(), 2);
    assert_eq!(DerefAliases::DerefAlways.code(), 3);
}

#[test]
fn filter_clone_keeps_the_filter() {
    let f = Filter::And(FilterAnd { items: vec![present("a"), equality("b", "c"), Filter::Empty()] });
    assert_eq!(format!("{:?}", f.clone()), format!("{:?}", f));
}
