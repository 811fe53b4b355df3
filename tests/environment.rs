use envfile::environment::{EnvError, Environment, KeyStatus};
use envfile::line::{read_line, Line};

fn load(text: &[u8]) -> Environment {
    let mut env = Environment::new(&String::from(".env"));
    env.read_buf(text.to_vec());
    env
}

fn s(text: &str) -> String {
    String::from(text)
}

fn no_descriptions() -> Vec<String> {
    Vec::new()
}

#[test]
fn load_then_buffer_is_unchanged() {
    let text = b"# header\nFOO=1\n\n  BAR = two \r\nnot a declaration\n#BAZ=3";
    let env = load(text);
    assert_eq!(env.buf().as_slice(), &text[..]);
}

#[test]
fn load_indexes_plain_and_commented_keys() {
    let env = load(b"FOO=1\n# BAR=2\n#BAZ=3\n");
    assert_eq!(env.get_with_key(&s("FOO")), Ok(s("1")));
    assert_eq!(env.get_with_key(&s("BAR")), Ok(s("2")));
    assert_eq!(env.get_with_key(&s("BAZ")), Ok(s("3")));
    assert_eq!(env.entries().len(), 3);
}

#[test]
fn load_splits_on_first_equals() {
    let env = load(b"URL=a=b=c\n");
    assert_eq!(env.get_with_key(&s("URL")), Ok(s("a=b=c")));
}

#[test]
fn load_strips_line_endings_from_value() {
    let env = load(b"A=1\r\nB=2\n");
    assert_eq!(env.get_with_key(&s("A")), Ok(s("1")));
    assert_eq!(env.get_with_key(&s("B")), Ok(s("2")));
}

#[test]
fn load_later_duplicate_wins() {
    let env = load(b"A=first\nA=second\n");
    assert_eq!(env.get_with_key(&s("A")), Ok(s("second")));
    assert_eq!(env.entries().len(), 1);
}

#[test]
fn load_skips_lines_without_equals_and_invalid_utf8() {
    let env = load(b"just text\nBAD=\xff\xfe\nOK=yes\n");
    assert_eq!(env.get_with_key(&s("BAD")), Err(EnvError::NotFound));
    assert_eq!(env.get_with_key(&s("OK")), Ok(s("yes")));
    assert_eq!(env.entries().len(), 1);
}

#[test]
fn load_strips_unicode_white_space_before_key() {
    let env = load("#\u{a0}\u{3000}KEY=v\n".as_bytes());
    assert_eq!(env.get_with_key(&s("KEY")), Ok(s("v")));
}

#[test]
fn load_empty_buffer_has_no_entries() {
    let env = load(b"");
    assert_eq!(env.entries().len(), 0);
    assert_eq!(env.get_with_key(&s("A")), Err(EnvError::NotFound));
}

#[test]
fn get_decodes_multibyte_value() {
    let env = load("NAME=caf\u{e9}\n".as_bytes());
    assert_eq!(env.get_with_key(&s("NAME")), Ok(s("caf\u{e9}")));
}

#[test]
fn get_reports_invalid_encoding() {
    let mut env = load(b"A=1\n");
    env.set(&s("A"), vec![0xff, 0x41], &no_descriptions());
    assert_eq!(env.buf().as_slice(), b"A=\xffA\n");
    assert_eq!(env.get_with_key(&s("A")), Err(EnvError::InvalidEncoding));
}

#[test]
fn set_existing_key_in_place() {
    let mut env = load(b"FOO=1\nBAR=2\n");
    env.set(&s("FOO"), b"99".to_vec(), &no_descriptions());
    assert_eq!(env.buf().as_slice(), b"FOO=99\nBAR=2\n");
    assert_eq!(env.get_with_key(&s("FOO")), Ok(s("99")));
    assert_eq!(env.get_with_key(&s("BAR")), Ok(s("2")));
}

#[test]
fn set_shrinking_value_keeps_later_keys() {
    let mut env = load(b"A=long value\nB=2\nC=3\n");
    env.set(&s("A"), b"x".to_vec(), &no_descriptions());
    assert_eq!(env.buf().as_slice(), b"A=x\nB=2\nC=3\n");
    assert_eq!(env.get_with_key(&s("B")), Ok(s("2")));
    assert_eq!(env.get_with_key(&s("C")), Ok(s("3")));
    env.set(&s("C"), b"33".to_vec(), &no_descriptions());
    assert_eq!(env.buf().as_slice(), b"A=x\nB=2\nC=33\n");
}

#[test]
fn set_new_key_appends() {
    let mut env = load(b"FOO=1\n");
    env.set(&s("BAR"), b"2".to_vec(), &no_descriptions());
    assert_eq!(env.buf().as_slice(), b"FOO=1\n\nBAR=2");
    assert_eq!(env.get_with_key(&s("BAR")), Ok(s("2")));
    assert_eq!(env.get_with_key(&s("FOO")), Ok(s("1")));
}

#[test]
fn set_new_key_with_descriptions() {
    let mut env = load(b"FOO=1\n");
    env.set(&s("BAR"), b"2".to_vec(), &vec![s("first"), s("second")]);
    assert_eq!(env.buf().as_slice(), b"FOO=1\n\n# first\n# second\nBAR=2");
    assert_eq!(env.get_with_key(&s("BAR")), Ok(s("2")));
}

#[test]
fn set_new_key_on_empty_buffer() {
    let mut env = load(b"");
    env.set(&s("A"), b"".to_vec(), &no_descriptions());
    assert_eq!(env.buf().as_slice(), b"\nA=");
    assert_eq!(env.get_with_key(&s("A")), Ok(s("")));
}

#[test]
fn set_then_get_any_value() {
    let mut env = load(b"X=0\n");
    env.set(&s("NEW"), b"a value\nwith=newline".to_vec(), &no_descriptions());
    assert_eq!(env.get_with_key(&s("NEW")), Ok(s("a value\nwith=newline")));
}

#[test]
fn set_twice_same_value_is_idempotent() {
    let mut env = load(b"A=1\nB=2\n");
    env.set(&s("C"), b"3".to_vec(), &no_descriptions());
    let once = env.buf().clone();
    env.set(&s("C"), b"3".to_vec(), &no_descriptions());
    assert_eq!(env.buf(), &once);
    env.set(&s("A"), b"9".to_vec(), &no_descriptions());
    let once = env.buf().clone();
    env.set(&s("A"), b"9".to_vec(), &no_descriptions());
    assert_eq!(env.buf(), &once);
    assert_eq!(env.buf().as_slice(), b"A=9\nB=2\n\nC=3");
}

#[test]
fn set_with_descriptions_replaces_comment_block() {
    let mut env = load(b"A=1\n# old one\n# old two\nB=2\nC=3\n");
    env.set(&s("B"), b"20".to_vec(), &vec![s("new")]);
    assert_eq!(env.buf().as_slice(), b"A=1\n# new\nB=20\nC=3\n");
    assert_eq!(env.get_with_key(&s("B")), Ok(s("20")));
    assert_eq!(env.get_with_key(&s("C")), Ok(s("3")));
    assert_eq!(env.get_with_key(&s("A")), Ok(s("1")));
}

#[test]
fn set_with_descriptions_twice_keeps_one_comment() {
    let mut env = load(b"A=1\nKEY=0\nZ=9\n");
    env.set(&s("KEY"), b"v1".to_vec(), &vec![s("a")]);
    assert_eq!(env.buf().as_slice(), b"A=1\n# a\nKEY=v1\nZ=9\n");
    env.set(&s("KEY"), b"v2".to_vec(), &vec![s("b")]);
    assert_eq!(env.buf().as_slice(), b"A=1\n# b\nKEY=v2\nZ=9\n");
    assert_eq!(env.get_with_key(&s("KEY")), Ok(s("v2")));
}

#[test]
fn set_with_descriptions_on_first_entry() {
    let mut env = load(b"# header\nKEY=0\n");
    env.set(&s("KEY"), b"1".to_vec(), &vec![s("about key")]);
    assert_eq!(env.buf().as_slice(), b"# about key\nKEY=1\n");
}

#[test]
fn set_with_descriptions_on_new_key_twice() {
    let mut env = load(b"FOO=1\n");
    env.set(&s("BAR"), b"v1".to_vec(), &vec![s("a")]);
    env.set(&s("BAR"), b"v2".to_vec(), &vec![s("b")]);
    assert_eq!(env.buf().as_slice(), b"FOO=1\n# b\nBAR=v2");
    assert_eq!(env.get_with_key(&s("BAR")), Ok(s("v2")));
}

#[test]
fn disable_inserts_hash() {
    let mut env = load(b"FOO=1\n");
    assert_eq!(env.toggle(&s("FOO"), KeyStatus::Disable), Ok(()));
    assert_eq!(env.buf().as_slice(), b"#FOO=1\n");
    assert_eq!(env.get_with_key(&s("FOO")), Ok(s("1")));
}

#[test]
fn disable_then_enable_restores_line() {
    let text = b"A=1\nFOO=bar\nB=2\n";
    let mut env = load(text);
    assert_eq!(env.toggle(&s("FOO"), KeyStatus::Disable), Ok(()));
    assert_eq!(env.buf().as_slice(), b"A=1\n#FOO=bar\nB=2\n");
    assert_eq!(env.toggle(&s("FOO"), KeyStatus::Enable), Ok(()));
    assert_eq!(env.buf().as_slice(), &text[..]);
    assert_eq!(env.get_with_key(&s("B")), Ok(s("2")));
}

#[test]
fn disable_twice_adds_second_hash() {
    let mut env = load(b"FOO=1\n");
    assert_eq!(env.toggle(&s("FOO"), KeyStatus::Disable), Ok(()));
    assert_eq!(env.toggle(&s("FOO"), KeyStatus::Disable), Ok(()));
    assert_eq!(env.buf().as_slice(), b"##FOO=1\n");
    assert_eq!(env.get_with_key(&s("FOO")), Ok(s("1")));
}

#[test]
fn enable_on_enabled_line_fails() {
    let mut env = load(b"FOO=1\n");
    assert_eq!(env.toggle(&s("FOO"), KeyStatus::Enable), Err(EnvError::AlreadyEnabled));
    assert_eq!(env.buf().as_slice(), b"FOO=1\n");
}

#[test]
fn enable_commented_line() {
    let mut env = load(b"#FOO=1\nBAR=2\n");
    assert_eq!(env.toggle(&s("FOO"), KeyStatus::Enable), Ok(()));
    assert_eq!(env.buf().as_slice(), b"FOO=1\nBAR=2\n");
    assert_eq!(env.get_with_key(&s("BAR")), Ok(s("2")));
}

#[test]
fn toggle_missing_key_fails() {
    let mut env = load(b"FOO=1\n");
    assert_eq!(env.toggle(&s("NOPE"), KeyStatus::Disable), Err(EnvError::NotFound));
    assert_eq!(env.toggle(&s("NOPE"), KeyStatus::Enable), Err(EnvError::NotFound));
    assert_eq!(env.buf().as_slice(), b"FOO=1\n");
}

#[test]
fn path_is_kept() {
    let env = Environment::new(&s("config/.env"));
    assert_eq!(env.path(), &s("config/.env"));
}

#[test]
fn sorted_end_value_offsets_follow_edits() {
    let mut env = load(b"BB=22\nA=1\n");
    assert_eq!(env.sorted_end_value_offsets(), vec![5, 9]);
    env.set(&s("BB"), b"2".to_vec(), &no_descriptions());
    assert_eq!(env.sorted_end_value_offsets(), vec![4, 8]);
    env.set(&s("C"), b"3".to_vec(), &no_descriptions());
    assert_eq!(env.sorted_end_value_offsets(), vec![4, 8, 13]);
}

#[test]
fn sorted_end_value_offsets_empty() {
    let env = load(b"no declarations here\n");
    assert_eq!(env.sorted_end_value_offsets(), Vec::<usize>::new());
}

#[test]
fn delete_removes_line_and_newline() {
    let mut env = load(b"A=1\nB=2\nC=3\n");
    assert_eq!(env.delete(&s("B")), Ok(()));
    assert_eq!(env.buf().as_slice(), b"A=1\nC=3\n");
    assert_eq!(env.get_with_key(&s("B")), Err(EnvError::NotFound));
    assert_eq!(env.get_with_key(&s("C")), Ok(s("3")));
    assert_eq!(env.get_with_key(&s("A")), Ok(s("1")));
}

#[test]
fn delete_removes_crlf() {
    let mut env = load(b"A=1\r\nB=2\r\n");
    assert_eq!(env.delete(&s("A")), Ok(()));
    assert_eq!(env.buf().as_slice(), b"B=2\r\n");
    assert_eq!(env.get_with_key(&s("B")), Ok(s("2")));
}

#[test]
fn delete_last_line_without_newline() {
    let mut env = load(b"A=1\nB=2");
    assert_eq!(env.delete(&s("B")), Ok(()));
    assert_eq!(env.buf().as_slice(), b"A=1\n");
}

#[test]
fn delete_missing_key_fails() {
    let mut env = load(b"A=1\n");
    assert_eq!(env.delete(&s("Z")), Err(EnvError::NotFound));
    assert_eq!(env.buf().as_slice(), b"A=1\n");
}

#[test]
fn read_line_classifies_lines() {
    let buf = b"# FOO=1\nplain\n".to_vec();
    let (first, next) = read_line(&buf, 0);
    assert_eq!(next, 8);
    match first {
        Line::Declaration { key, span } => {
            assert_eq!(key, b"FOO".to_vec());
            assert_eq!((span.line_start, span.value_start, span.value_end), (0, 6, 7));
        }
        Line::Inert => panic!("expected a declaration"),
    }
    let (second, end) = read_line(&buf, next);
    assert_eq!(end, 14);
    assert!(matches!(second, Line::Inert));
}
