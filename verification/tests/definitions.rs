use rosbridge_server_rs::definitions::{constant_source_of, constants, interface_parts, section_of};

#[test]
fn constants_live_in_the_file_of_the_base_interface() {
    assert_eq!(constant_source_of("std_msgs/msg/String"), Some(("std_msgs/msg/String".to_string(), 0)));
    assert_eq!(constant_source_of("pkg/srv/Add_Request"), Some(("pkg/srv/Add".to_string(), 0)));
    assert_eq!(constant_source_of("pkg/srv/Add_Response"), Some(("pkg/srv/Add".to_string(), 1)));
    assert_eq!(constant_source_of("pkg/action/Move_Goal"), Some(("pkg/action/Move".to_string(), 0)));
    assert_eq!(constant_source_of("pkg/action/Move_Result"), Some(("pkg/action/Move".to_string(), 1)));
    assert_eq!(constant_source_of("pkg/action/Move_Feedback"), Some(("pkg/action/Move".to_string(), 2)));
    assert_eq!(constant_source_of("pkg/action/Move"), Some(("pkg/action/Move".to_string(), 0)));
    assert_eq!(constant_source_of("pkg/String"), None);
}

#[test]
fn interface_names_must_have_three_word_parts() {
    assert_eq!(
        interface_parts("std_msgs/msg/String"),
        Some(vec!["std_msgs".to_string(), "msg".to_string(), "String".to_string()])
    );
    assert_eq!(interface_parts("std_msgs/String"), None);
    assert_eq!(interface_parts("std_msgs/msg/../x"), None);
    assert_eq!(interface_parts("std_msgs//String"), None);
}

#[test]
fn sections_are_split_at_separator_lines() {
    let text = "int32 a\n---\nint32 b\n---\nint32 c";
    assert_eq!(section_of(text, 0), "int32 a");
    assert_eq!(section_of(text, 1), "\nint32 b");
    assert_eq!(section_of(text, 2), "\nint32 c");
    assert_eq!(section_of(text, 3), "");
}

#[test]
fn declared_constants_are_read() {
    let text = "# comment\nint32 FOO=1 # one\nstring NAME = 'bob'\nstring QUOTED=\"\"x\"\"\nint32 value\nuint8 A B=2\nfloat64 PI=3.14\n---\nint32 RESPONSE=7\n";
    let request = constants(text, 0);
    assert_eq!(
        request,
        vec![
            ("FOO".to_string(), "1".to_string()),
            ("NAME".to_string(), "bob".to_string()),
            ("QUOTED".to_string(), "x".to_string()),
            ("PI".to_string(), "3.14".to_string()),
        ]
    );
    assert_eq!(constants(text, 1), vec![("RESPONSE".to_string(), "7".to_string())]);
    assert!(constants(text, 2).is_empty());
    assert!(constants("  # int32 X=1", 0).is_empty());
}
