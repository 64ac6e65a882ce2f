use prototui_core::client::{CoreClient, ProtoTuiConfig};
use prototui_core::message::{DynamicMessage, FieldValue, ScalarValue, Value};
use prototui_core::registry::{DescriptorLinkError, DescriptorRegistry};
use prototui_core::rpc::{RpcError, TransportEvent};
use prototui_core::schema::{
    Cardinality, EnumSchema, FieldKind, FieldSchema, FileSchema, MessageSchema, MethodSchema,
    RawDescriptorSet, ScalarKind, ServiceSchema,
};

fn hello_file() -> FileSchema {
    FileSchema {
        services: vec![ServiceSchema {
            name: "Greeter".to_string(),
            methods: vec![MethodSchema {
                name: "SayHello".to_string(),
                input: "HelloRequest".to_string(),
                output: "HelloReply".to_string(),
                unary: true,
            }],
        }],
        messages: vec![
            MessageSchema {
                name: "HelloRequest".to_string(),
                fields: vec![FieldSchema {
                    number: 1,
                    name: "name".to_string(),
                    kind: FieldKind::Scalar(ScalarKind::Text),
                    card: Cardinality::Singular,
                }],
                oneofs: vec![],
            },
            MessageSchema {
                name: "HelloReply".to_string(),
                fields: vec![FieldSchema {
                    number: 1,
                    name: "message".to_string(),
                    kind: FieldKind::Scalar(ScalarKind::Text),
                    card: Cardinality::Singular,
                }],
                oneofs: vec![],
            },
        ],
        enums: vec![],
    }
}

fn hello_config() -> ProtoTuiConfig {
    ProtoTuiConfig {
        address: "http://localhost:50051".to_string(),
        metadata: vec![(
            "authorization".to_string(),
            "Bearer SECRET-REDACTED".to_string(),
        )],
        timeout_ms: Some(5_000),
        descriptors: RawDescriptorSet { files: vec![hello_file()] },
    }
}

#[test]
fn greeter_registry_links_and_lists() {
    let client = CoreClient::new(hello_config()).unwrap();
    let services = client.get_services();
    assert_eq!(services.len(), 1);
    assert_eq!(services[0].name, "Greeter");
    let methods = client.get_methods(&services[0]);
    assert_eq!(methods.len(), 1);
    assert_eq!(methods[0].name, "SayHello");
    assert_eq!(methods[0].input, "HelloRequest");
    assert_eq!(client.get_default_address(), "http://localhost:50051");
}

#[test]
fn default_request_has_empty_name() {
    let client = CoreClient::new(hello_config()).unwrap();
    let services = client.get_services();
    let methods = client.get_methods(&services[0]);
    let req = client.get_request(&methods[0]);
    assert_eq!(req.fields.len(), 1);
    assert_eq!(req.fields[0].0, 1);
    assert_eq!(
        req.fields[0].1,
        FieldValue::Single(Value::Scalar(ScalarValue::Text(vec![])))
    );
}

#[test]
fn building_defaults_twice_is_identical() {
    let client = CoreClient::new(hello_config()).unwrap();
    let services = client.get_services();
    let methods = client.get_methods(&services[0]);
    let a = client.get_request(&methods[0]);
    let b = client.get_request(&methods[0]);
    assert_eq!(a, b);
}

#[test]
fn hello_world_wire_bytes() {
    let client = CoreClient::new(hello_config()).unwrap();
    let services = client.get_services();
    let methods = client.get_methods(&services[0]);
    let mut req = client.get_request(&methods[0]);
    let ms = client.desc.resolve_message("HelloRequest").unwrap();
    req.set_scalar(&ms, 1, ScalarValue::Text(b"world".to_vec()))
        .unwrap();
    let bytes = prototui_core::wire::encode(&req);
    assert_eq!(bytes, vec![0x0a, 0x05, b'w', b'o', b'r', b'l', b'd']);
}

#[test]
fn set_scalar_rejects_wrong_kind() {
    let ms = MessageSchema {
        name: "M".to_string(),
        fields: vec![FieldSchema {
            number: 1,
            name: "n".to_string(),
            kind: FieldKind::Scalar(ScalarKind::Uint64),
            card: Cardinality::Singular,
        }],
        oneofs: vec![],
    };
    let mut m = DynamicMessage::build_default(&ms);
    assert_eq!(
        m.set_scalar(&ms, 1, ScalarValue::Text(b"x".to_vec())),
        Err(prototui_core::message::FieldAccessError::KindMismatch)
    );
    assert_eq!(
        m.set_scalar(&ms, 9, ScalarValue::Uint64(4)),
        Err(prototui_core::message::FieldAccessError::UnknownField)
    );
    assert_eq!(m.set_scalar(&ms, 1, ScalarValue::Uint64(4)), Ok(()));
}

#[test]
fn repeated_and_map_mutations() {
    let ms = MessageSchema {
        name: "M".to_string(),
        fields: vec![
            FieldSchema {
                number: 1,
                name: "xs".to_string(),
                kind: FieldKind::Scalar(ScalarKind::Uint64),
                card: Cardinality::Repeated,
            },
            FieldSchema {
                number: 2,
                name: "kv".to_string(),
                kind: FieldKind::Scalar(ScalarKind::Text),
                card: Cardinality::Mapped(ScalarKind::Uint64),
            },
        ],
        oneofs: vec![],
    };
    let mut m = DynamicMessage::build_default(&ms);
    m.append_repeated(&ms, 1, Value::Scalar(ScalarValue::Uint64(7)))
        .unwrap();
    m.append_repeated(&ms, 1, Value::Scalar(ScalarValue::Uint64(8)))
        .unwrap();
    m.set_map_entry(
        &ms,
        2,
        ScalarValue::Uint64(1),
        Value::Scalar(ScalarValue::Text(b"a".to_vec())),
    )
    .unwrap();
    m.set_map_entry(
        &ms,
        2,
        ScalarValue::Uint64(1),
        Value::Scalar(ScalarValue::Text(b"b".to_vec())),
    )
    .unwrap();
    assert_eq!(
        m.fields[0].1,
        FieldValue::Repeated(vec![
            Value::Scalar(ScalarValue::Uint64(7)),
            Value::Scalar(ScalarValue::Uint64(8)),
        ])
    );
    assert_eq!(
        m.fields[1].1,
        FieldValue::MapEntries(vec![(
            ScalarValue::Uint64(1),
            Value::Scalar(ScalarValue::Text(b"b".to_vec()))
        )])
    );
}

#[test]
fn duplicate_type_names_refuse_to_link() {
    let mut f = hello_file();
    f.messages.push(MessageSchema {
        name: "HelloRequest".to_string(),
        fields: vec![],
        oneofs: vec![],
    });
    let r = DescriptorRegistry::from_raw(&RawDescriptorSet { files: vec![f] });
    assert!(matches!(r, Err(DescriptorLinkError::DuplicateType(_))));
}

#[test]
fn unresolved_reference_refuses_to_link() {
    let mut f = hello_file();
    f.messages[0].fields.push(FieldSchema {
        number: 2,
        name: "other".to_string(),
        kind: FieldKind::MessageRef("Missing".to_string()),
        card: Cardinality::Singular,
    });
    let r = DescriptorRegistry::from_raw(&RawDescriptorSet { files: vec![f] });
    assert!(matches!(r, Err(DescriptorLinkError::UnresolvedType(_))));
}

#[test]
fn enum_without_zero_refuses_to_link() {
    let mut f = hello_file();
    f.enums.push(EnumSchema {
        name: "E".to_string(),
        values: vec![("ONE".to_string(), 1)],
    });
    let r = DescriptorRegistry::from_raw(&RawDescriptorSet { files: vec![f] });
    assert!(matches!(r, Err(DescriptorLinkError::InvalidSchema(_))));
}

#[test]
fn unknown_type_lookup_fails() {
    let client = CoreClient::new(hello_config()).unwrap();
    let r = client.desc.resolve_message("NoSuch");
    assert!(matches!(r, Err(DescriptorLinkError::UnknownType(_))));
}

#[test]
fn empty_address_is_invalid_without_io() {
    let client = CoreClient::new(hello_config()).unwrap();
    let services = client.get_services();
    let methods = client.get_methods(&services[0]);
    let req = client.get_request(&methods[0]);
    let r = client.prepare_unary(&services[0], &methods[0], &req, "");
    assert!(matches!(r, Err(RpcError::InvalidAddress)));
}

#[test]
fn prepared_call_attaches_metadata_once() {
    let client = CoreClient::new(hello_config()).unwrap();
    let services = client.get_services();
    let methods = client.get_methods(&services[0]);
    let req = client.get_request(&methods[0]);
    let pc = client
        .prepare_unary(&services[0], &methods[0], &req, "http://localhost:50051")
        .unwrap();
    let hits = pc
        .metadata
        .iter()
        .filter(|(k, v)| k == "authorization" && v == "Bearer SECRET-REDACTED")
        .count();
    assert_eq!(hits, 1);
    assert_eq!(pc.service, "Greeter");
    assert_eq!(pc.method, "SayHello");
}

#[test]
fn framed_request_has_length_prefix() {
    let client = CoreClient::new(hello_config()).unwrap();
    let services = client.get_services();
    let methods = client.get_methods(&services[0]);
    let mut req = client.get_request(&methods[0]);
    let ms = client.desc.resolve_message("HelloRequest").unwrap();
    req.set_scalar(&ms, 1, ScalarValue::Text(b"world".to_vec()))
        .unwrap();
    let pc = client
        .prepare_unary(&services[0], &methods[0], &req, "http://localhost:50051")
        .unwrap();
    assert_eq!(
        pc.frame,
        vec![0, 0, 0, 0, 7, 0x0a, 0x05, b'w', b'o', b'r', b'l', b'd']
    );
}

#[test]
fn status_error_carries_code_and_message() {
    let client = CoreClient::new(hello_config()).unwrap();
    let e = client.unary_failure(TransportEvent::Status(5, "not found".to_string()));
    assert_eq!(e, RpcError::StatusError(5, "not found".to_string()));
    assert_eq!(e.kind(), "StatusError");
    let t = client.unary_failure(TransportEvent::TimedOut);
    assert_eq!(t, RpcError::Timeout);
}

#[test]
fn varint_encoding_of_large_numbers() {
    let ms = MessageSchema {
        name: "M".to_string(),
        fields: vec![FieldSchema {
            number: 1,
            name: "n".to_string(),
            kind: FieldKind::Scalar(ScalarKind::Uint64),
            card: Cardinality::Singular,
        }],
        oneofs: vec![],
    };
    let mut m = DynamicMessage::build_default(&ms);
    m.set_scalar(&ms, 1, ScalarValue::Uint64(300)).unwrap();
    let bytes = prototui_core::wire::encode(&m);
    assert_eq!(bytes, vec![0x08, 0xac, 0x02]);
}

#[test]
fn footer_keys_list_the_bindings() {
    let keys = prototui_core::tabs::MessagesTab::footer_keys();
    assert_eq!(keys.len(), 5);
    assert_eq!(keys[0], ("q", "Quit"));
    assert_eq!(keys[1], ("Tab", "Next Tab"));
    assert_eq!(keys[2], ("\u{2191}", "Up"));
    assert_eq!(keys[3], ("\u{2193}", "Down"));
    assert_eq!(keys[4], ("Enter", "gRPC"));
}

#[test]
fn decode_inverts_encode_for_greeter() {
    let client = CoreClient::new(hello_config()).unwrap();
    let services = client.get_services();
    let methods = client.get_methods(&services[0]);
    let mut req = client.get_request(&methods[0]);
    let ms = client.desc.resolve_message("HelloRequest").unwrap();
    req.set_scalar(&ms, 1, ScalarValue::Text(b"world".to_vec()))
        .unwrap();
    let bytes = prototui_core::wire::encode(&req);
    let back = prototui_core::wire::decode(&bytes, &ms, &client.desc).unwrap();
    assert_eq!(back, req);
}

#[test]
fn decoding_empty_bytes_yields_no_fields() {
    let client = CoreClient::new(hello_config()).unwrap();
    let ms = client.desc.resolve_message("HelloRequest").unwrap();
    let m = prototui_core::wire::decode(&[], &ms, &client.desc).unwrap();
    assert_eq!(m.fields.len(), 0);
    assert_eq!(m.unknown.len(), 0);
}

#[test]
fn unknown_field_numbers_survive_decode_and_reencode() {
    let client = CoreClient::new(hello_config()).unwrap();
    let ms = client.desc.resolve_message("HelloRequest").unwrap();
    // field 9 (not in the schema), varint value 5, then field 1 "hi"
    let bytes = vec![0x48, 0x05, 0x0a, 0x02, b'h', b'i'];
    let m = prototui_core::wire::decode(&bytes, &ms, &client.desc).unwrap();
    assert_eq!(m.unknown.len(), 1);
    assert_eq!(m.unknown[0].number, 9);
    assert_eq!(
        m.unknown[0].payload,
        prototui_core::message::WirePayload::Varint(5)
    );
    assert_eq!(m.fields.len(), 1);
    let again = prototui_core::wire::encode(&m);
    let back = prototui_core::wire::decode(&again, &ms, &client.desc).unwrap();
    assert_eq!(back.unknown, m.unknown);
}

#[test]
fn decode_rejects_wrong_wire_type() {
    let client = CoreClient::new(hello_config()).unwrap();
    let ms = client.desc.resolve_message("HelloRequest").unwrap();
    // field 1 declared Text (LEN) but sent as varint
    let bytes = vec![0x08, 0x01];
    assert_eq!(
        prototui_core::wire::decode(&bytes, &ms, &client.desc),
        Err(prototui_core::wire::DecodeError::TypeMismatch)
    );
    // truncated length-delimited payload
    let bytes = vec![0x0a, 0x05, b'w'];
    assert_eq!(
        prototui_core::wire::decode(&bytes, &ms, &client.desc),
        Err(prototui_core::wire::DecodeError::UnexpectedEof)
    );
}

#[test]
fn method_path_joins_service_and_method() {
    let client = CoreClient::new(hello_config()).unwrap();
    let services = client.get_services();
    let methods = client.get_methods(&services[0]);
    assert_eq!(
        prototui_core::rpc::method_path(&services[0], &methods[0]),
        "/Greeter/SayHello"
    );
}

#[test]
fn editable_text_round_trips() {
    let client = CoreClient::new(hello_config()).unwrap();
    let services = client.get_services();
    let methods = client.get_methods(&services[0]);
    let mut req = client.get_request(&methods[0]);
    let ms = client.desc.resolve_message("HelloRequest").unwrap();
    req.set_scalar(&ms, 1, ScalarValue::Text(b"world".to_vec()))
        .unwrap();
    let text = prototui_core::text::to_editable_text(&req);
    assert_eq!(text, "0a05776f726c64");
    let back = prototui_core::text::from_editable_text(&text, &ms, &client.desc).unwrap();
    assert_eq!(back, req);
}

#[test]
fn non_hex_text_is_rejected() {
    let client = CoreClient::new(hello_config()).unwrap();
    let ms = client.desc.resolve_message("HelloRequest").unwrap();
    assert_eq!(
        prototui_core::text::from_editable_text("zz", &ms, &client.desc),
        Err(prototui_core::text::TextParseError::NotHex)
    );
    assert_eq!(
        prototui_core::text::from_editable_text("0", &ms, &client.desc),
        Err(prototui_core::text::TextParseError::NotHex)
    );
}

#[test]
fn oneof_activation_clears_the_other_member() {
    let ms = MessageSchema {
        name: "M".to_string(),
        fields: vec![
            FieldSchema {
                number: 1,
                name: "a".to_string(),
                kind: FieldKind::Scalar(ScalarKind::Uint64),
                card: Cardinality::Singular,
            },
            FieldSchema {
                number: 2,
                name: "b".to_string(),
                kind: FieldKind::Scalar(ScalarKind::Text),
                card: Cardinality::Singular,
            },
        ],
        oneofs: vec![vec![1, 2]],
    };
    let mut m = DynamicMessage::build_default(&ms);
    assert_eq!(m.fields.len(), 0);
    m.activate_oneof_member(&ms, 1).unwrap();
    m.set_scalar(&ms, 1, ScalarValue::Uint64(7)).unwrap();
    m.activate_oneof_member(&ms, 2).unwrap();
    assert_eq!(m.fields.len(), 1);
    assert_eq!(m.fields[0].0, 2);
    assert_eq!(
        m.fields[0].1,
        FieldValue::Single(Value::Scalar(ScalarValue::Text(vec![])))
    );
    assert_eq!(
        m.activate_oneof_member(&ms, 9),
        Err(prototui_core::message::FieldAccessError::NotOneofMember)
    );
}

#[test]
fn expand_nested_materializes_a_default_child() {
    let file = FileSchema {
        services: vec![],
        messages: vec![
            MessageSchema {
                name: "Outer".to_string(),
                fields: vec![FieldSchema {
                    number: 1,
                    name: "inner".to_string(),
                    kind: FieldKind::MessageRef("Inner".to_string()),
                    card: Cardinality::Singular,
                }],
                oneofs: vec![],
            },
            MessageSchema {
                name: "Inner".to_string(),
                fields: vec![FieldSchema {
                    number: 1,
                    name: "n".to_string(),
                    kind: FieldKind::Scalar(ScalarKind::Uint64),
                    card: Cardinality::Singular,
                }],
                oneofs: vec![],
            },
        ],
        enums: vec![],
    };
    let reg = DescriptorRegistry::from_raw(&RawDescriptorSet { files: vec![file] }).unwrap();
    let ms = reg.resolve_message("Outer").unwrap();
    let mut m = DynamicMessage::build_default(&ms);
    assert_eq!(m.fields.len(), 0);
    m.expand_nested(&ms, &reg, 1).unwrap();
    assert_eq!(m.fields.len(), 1);
    let child = DynamicMessage {
        fields: vec![(1, FieldValue::Single(Value::Scalar(ScalarValue::Uint64(0))))],
        unknown: vec![],
    };
    assert_eq!(m.fields[0].1, FieldValue::Single(Value::Nested(Box::new(child))));
    // a second expansion leaves the populated child alone
    m.expand_nested(&ms, &reg, 1).unwrap();
    assert_eq!(m.fields.len(), 1);
}


fn counter_file() -> FileSchema {
    FileSchema {
        services: vec![],
        messages: vec![MessageSchema {
            name: "Counter".to_string(),
            fields: vec![
                FieldSchema {
                    number: 1,
                    name: "label".to_string(),
                    kind: FieldKind::Scalar(ScalarKind::Text),
                    card: Cardinality::Singular,
                },
                FieldSchema {
                    number: 2,
                    name: "values".to_string(),
                    kind: FieldKind::Scalar(ScalarKind::Uint64),
                    card: Cardinality::Repeated,
                },
            ],
            oneofs: vec![],
        }],
        enums: vec![],
    }
}

#[test]
fn default_with_repeated_field_round_trips_exactly() {
    let reg = DescriptorRegistry::from_raw(&RawDescriptorSet { files: vec![counter_file()] })
        .unwrap();
    let ms = reg.resolve_message("Counter").unwrap();
    let m = DynamicMessage::build_default(&ms);
    assert_eq!(m.fields.len(), 2);
    assert_eq!(m.fields[1].1, FieldValue::Repeated(vec![]));
    let bytes = prototui_core::wire::encode(&m);
    let back = prototui_core::wire::decode(&bytes, &ms, &reg).unwrap();
    assert_eq!(back, m);
    let text = prototui_core::text::to_editable_text(&m);
    let back2 = prototui_core::text::from_editable_text(&text, &ms, &reg).unwrap();
    assert_eq!(back2, m);
}

#[test]
fn decoding_empty_bytes_repopulates_empty_containers() {
    let reg = DescriptorRegistry::from_raw(&RawDescriptorSet { files: vec![counter_file()] })
        .unwrap();
    let ms = reg.resolve_message("Counter").unwrap();
    let m = prototui_core::wire::decode(&[], &ms, &reg).unwrap();
    assert_eq!(m.unknown.len(), 0);
    assert_eq!(m.fields, vec![(2, FieldValue::Repeated(vec![]))]);
}

#[test]
fn complete_unary_decodes_an_echoed_frame() {
    let client = CoreClient::new(hello_config()).unwrap();
    let services = client.get_services();
    let methods = client.get_methods(&services[0]);
    let mut req = client.get_request(&methods[0]);
    let ms = client.desc.resolve_message("HelloRequest").unwrap();
    req.set_scalar(&ms, 1, ScalarValue::Text(b"world".to_vec()))
        .unwrap();
    let pc = client
        .prepare_unary(&services[0], &methods[0], &req, "http://localhost:50051")
        .unwrap();
    assert_eq!(pc.timeout_ms, Some(5_000));
    // HelloReply has the same shape as HelloRequest here, so an echoing
    // server would return the frame unchanged.
    let resp = client.complete_unary(&methods[0], &pc.frame).unwrap();
    assert_eq!(resp.fields, req.fields);
}

#[test]
fn complete_unary_rejects_a_bad_frame() {
    let client = CoreClient::new(hello_config()).unwrap();
    let services = client.get_services();
    let methods = client.get_methods(&services[0]);
    assert_eq!(
        client.complete_unary(&methods[0], &[1, 0, 0, 0, 0]),
        Err(RpcError::DecodeFailed)
    );
    assert_eq!(
        client.complete_unary(&methods[0], &[0, 0, 0, 0, 9, 1]),
        Err(RpcError::DecodeFailed)
    );
}

#[test]
fn headers_footer_keys_list_the_bindings() {
    let keys = prototui_core::tabs::HeadersTab::footer_keys();
    assert_eq!(keys.len(), 5);
    assert_eq!(keys[2], ("\u{2191}/k", "Up"));
    assert_eq!(keys[4], ("Enter", "Select"));
}
