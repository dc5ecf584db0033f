use constexpr_macros::lexical::{
    byte_at, ident_part_byte, ident_start_byte, skip_identifier, skip_whitespace, space_byte,
};
use constexpr_macros::model::{all_held, holds_text, same_arguments, same_optional_text, Argument};
use constexpr_macros::text::{ascii_slice, same_text};

#[test]
fn byte_classes() {
    for b in [b' ', b'\t', b'\n', b'\r'] {
        assert!(space_byte(b));
    }
    for b in [b'a', b'z', b'A', b'Z', b'_'] {
        assert!(ident_start_byte(b) && ident_part_byte(b) && !space_byte(b));
    }
    for b in [b'0', b'9'] {
        assert!(!ident_start_byte(b) && ident_part_byte(b));
    }
    for b in [b'`', b'{', b'@', b'[', b'/', b':', b'-', 0x80, 0xff, 0x0b, 0x0c, 0] {
        assert!(!ident_start_byte(b) && !ident_part_byte(b) && !space_byte(b));
    }
}

#[test]
fn skipping() {
    let bytes = " \t\r\nab_9 c".as_bytes();
    assert_eq!(skip_whitespace(bytes, 0), 4);
    assert_eq!(skip_whitespace(bytes, 4), 4);
    assert_eq!(skip_identifier(bytes, 4), 8);
    assert_eq!(skip_identifier(bytes, 8), 8);
    assert_eq!(skip_whitespace(bytes, 8), 9);
    assert_eq!(skip_identifier(bytes, 9), 10);
    assert_eq!(skip_whitespace(bytes, 10), 10);
    assert!(byte_at(bytes, 9, b'c'));
    assert!(!byte_at(bytes, 10, b'c'));
    assert!(!byte_at(bytes, 8, b'c'));
}

#[test]
fn slices_of_a_text() {
    let input = "fn caf\u{e9}(x: u8)";
    assert_eq!(ascii_slice(input, 0, 2), "fn");
    assert_eq!(ascii_slice(input, 3, 6), "caf");
    assert_eq!(ascii_slice(input, 9, 10), "x");
    assert_eq!(ascii_slice(input, 12, 14), "u8");
    assert_eq!(ascii_slice(input, 15, 15), "");
    assert_eq!(ascii_slice(input, 3, 3), "");
}

#[test]
fn texts_compare_by_their_characters() {
    assert!(same_text("abc", "abc"));
    assert!(same_text("", ""));
    assert!(!same_text("abc", "abd"));
    assert!(!same_text("abc", "ab"));
    assert!(!same_text("", "a"));
    assert!(same_text("\u{e9}", "\u{e9}"));
    assert!(!same_text("\u{e9}", "\u{e8}"));
}

#[test]
fn rows_of_names() {
    let names = vec!["T", "U"];
    assert!(holds_text(&names, "T"));
    assert!(holds_text(&names, "U"));
    assert!(!holds_text(&names, "V"));
    assert!(!holds_text(&Vec::new(), "T"));
    assert!(all_held(&vec!["U", "T", "U"], &names));
    assert!(all_held(&Vec::new(), &names));
    assert!(!all_held(&vec!["T", "V"], &names));
    assert!(same_optional_text(None, None));
    assert!(same_optional_text(Some("a"), Some("a")));
    assert!(!same_optional_text(Some("a"), Some("b")));
    assert!(!same_optional_text(Some("a"), None));
    assert!(!same_optional_text(None, Some("a")));
    let args = vec![Argument { name: "x", type_def: "T" }];
    assert!(same_arguments(&args, &vec![Argument { name: "x", type_def: "T" }]));
    assert!(!same_arguments(&args, &vec![Argument { name: "x", type_def: "U" }]));
    assert!(!same_arguments(&args, &vec![Argument { name: "y", type_def: "T" }]));
    assert!(!same_arguments(&args, &Vec::new()));
}
