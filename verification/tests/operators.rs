use grotsky::operators::{
    add_action, concat_bytes, concat_bytes_string, concat_string_bytes, concat_strings, equality_test, kind_name,
    AddAction, AddError, EqualityTest, ValueKind,
};

const KINDS: [ValueKind; 12] = [
    ValueKind::Class,
    ValueKind::Object,
    ValueKind::Dict,
    ValueKind::List,
    ValueKind::Fn,
    ValueKind::Native,
    ValueKind::Number,
    ValueKind::String,
    ValueKind::Bytes,
    ValueKind::Bool,
    ValueKind::Slice,
    ValueKind::Nil,
];

#[test]
fn kind_names() {
    let names: Vec<String> = KINDS.iter().map(|k| kind_name(*k)).collect();
    assert_eq!(
        names,
        vec!["class", "object", "dict", "list", "function", "native", "number", "string", "bytes", "bool", "slice", "nil"]
    );
}

#[test]
fn adding_like_kinds() {
    assert_eq!(add_action(ValueKind::Number, ValueKind::Number), AddAction::AddNumbers);
    assert_eq!(add_action(ValueKind::String, ValueKind::String), AddAction::ConcatStrings);
    assert_eq!(add_action(ValueKind::Bytes, ValueKind::Bytes), AddAction::ConcatBytes);
    assert_eq!(add_action(ValueKind::List, ValueKind::List), AddAction::ConcatLists);
    assert_eq!(add_action(ValueKind::Dict, ValueKind::Dict), AddAction::MergeDicts);
}

#[test]
fn adding_text_and_bytes() {
    assert_eq!(add_action(ValueKind::String, ValueKind::Bytes), AddAction::ConcatStringBytes);
    assert_eq!(add_action(ValueKind::Bytes, ValueKind::String), AddAction::ConcatBytesString);
}

#[test]
fn adding_to_an_object_calls_its_method() {
    for k in KINDS {
        assert_eq!(add_action(ValueKind::Object, k), AddAction::ObjectMethod);
    }
}

#[test]
fn refused_additions() {
    assert_eq!(add_action(ValueKind::Number, ValueKind::String), AddAction::Refuse(AddError::ExpectedNumber));
    assert_eq!(add_action(ValueKind::String, ValueKind::Number), AddAction::Refuse(AddError::ExpectedString));
    assert_eq!(add_action(ValueKind::Bytes, ValueKind::Nil), AddAction::Refuse(AddError::ExpectedString));
    assert_eq!(add_action(ValueKind::List, ValueKind::Nil), AddAction::Refuse(AddError::UndefinedOp));
    assert_eq!(add_action(ValueKind::List, ValueKind::Dict), AddAction::Refuse(AddError::ExpectedList));
    assert_eq!(add_action(ValueKind::Dict, ValueKind::List), AddAction::Refuse(AddError::ExpectedDict));
    for k in KINDS {
        assert_eq!(add_action(ValueKind::Nil, k), AddAction::Refuse(AddError::UndefinedOp));
        assert_eq!(add_action(ValueKind::Bool, k), AddAction::Refuse(AddError::UndefinedOp));
        assert_eq!(add_action(ValueKind::Fn, k), AddAction::Refuse(AddError::UndefinedOp));
    }
}

#[test]
fn concatenations() {
    assert_eq!(concat_strings(&"ab".to_string(), &"cé".to_string()), "abcé");
    assert_eq!(concat_strings(&String::new(), &String::new()), "");
    assert_eq!(concat_bytes(&[1, 2], &[3]), vec![1, 2, 3]);
    assert_eq!(concat_bytes(&[], &[]), Vec::<u8>::new());
    assert_eq!(concat_string_bytes(&"é".to_string(), &[0]), vec![0xC3, 0xA9, 0]);
    assert_eq!(concat_bytes_string(&[7], &"A".to_string()), vec![7, 65]);
}

#[test]
fn equality_tests_of_like_kinds() {
    assert_eq!(equality_test(ValueKind::Number, ValueKind::Number), EqualityTest::Numbers);
    assert_eq!(equality_test(ValueKind::String, ValueKind::String), EqualityTest::Texts);
    assert_eq!(equality_test(ValueKind::Bool, ValueKind::Bool), EqualityTest::Bools);
    assert_eq!(equality_test(ValueKind::List, ValueKind::List), EqualityTest::SameList);
    assert_eq!(equality_test(ValueKind::Nil, ValueKind::Nil), EqualityTest::Always(true));
    assert_eq!(equality_test(ValueKind::Dict, ValueKind::Dict), EqualityTest::Always(false));
}

#[test]
fn values_of_different_kinds_are_never_equal() {
    for l in KINDS {
        for r in KINDS {
            if l != r {
                assert_eq!(equality_test(l, r), EqualityTest::Always(false));
            }
        }
    }
}
