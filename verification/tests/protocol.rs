use pyreq::protocol::{respond, ver_line};

fn answer(line: &str) -> String {
    respond(line).unwrap()
}

#[test]
fn lines_are_answered() {
    for (line, expected) in [
        ("V\t1.0ALPHA5", "ok\t1.0a5\ttrue"),
        ("V\t1.0-1", "ok\t1.0.post1\tfalse"),
        ("V\tbad", "err"),
        ("VC\t1.0\t1.0.0", "eq"),
        ("VC\t1.0a1\t1.0", "lt"),
        ("VC\t1!0\t9", "gt"),
        ("VC\tx\t1", "err"),
        ("CN\tFoo.Bar", "foo-bar"),
        ("IN\tfoo", "true"),
        ("IN\tFoo", "false"),
        ("CV\t1.0.0\t1", "1"),
        ("CV\t1.0.0\t0", "1.0.0"),
        ("CV\tbad one\t1", "bad one"),
        ("S\t>=1.0", "ok"),
        ("S\tfoo", "err"),
        ("SC\t>=1.0\t1.5", "true"),
        ("SC\t>=1.0\t1.5a1", "false"),
        ("SC\tfoo\t1.5", "err"),
        ("SC\tfoo", "err"),
        ("SS\t>=1.0,<2", "ok"),
        ("SS\t>=1.0,foo", "err"),
        ("SSC\t>=1.0,<2\t1.5", "true"),
        ("SSC\t>=1.0,<2\t2", "false"),
        ("SSC\tfoo", "err"),
        ("M\tos.name=='x'", "ok\tos_name == \"x\""),
        ("M\tfoo", "err"),
        ("R\tfoo[b,a]>=1.0", "ok\tfoo[a,b]>=1.0"),
        ("R\t!", "err"),
        ("WH\tFoo.Bar-1.0-py3-none-any.whl", "ok\tfoo-bar\t1.0"),
        ("WH\tfoo.whl", "err"),
        ("SD\tFoo-1.0.tar.gz", "ok\tfoo\t1.0"),
        ("SD\tfoo", "err"),
        ("X", "UNKNOWN:X"),
        ("", "UNKNOWN:"),
        ("v\t1", "UNKNOWN:v"),
    ] {
        assert_eq!(answer(line), expected, "{:?}", line);
    }
    assert_eq!(ver_line(" v1 "), "ok\t1\tfalse");
}

#[test]
fn missing_arguments_have_no_answer() {
    for line in ["V", "VC\t1", "CV\t1", "SC\t>=1", "SSC\t>=1", "R", "M", "WH", "SD"] {
        assert!(respond(line).is_none(), "{:?}", line);
    }
}
