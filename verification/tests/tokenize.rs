use exprlang::tokens::{tokenize, Token};

#[test]
fn test_with_padding() {
    let s = String::from("  1  ");
    let ts = tokenize(&s).unwrap();
    assert_eq!(ts.len(), 1);
    assert_eq!(ts[0], Token::Num(String::from("1")));
}

#[test]
fn test_single_integer() {
    let s = String::from("1");
    let ts = tokenize(&s).unwrap();
    assert_eq!(ts.len(), 1);
    assert_eq!(ts[0], Token::Num(s));
}

#[test]
fn test_adding_integers() {
    let s = String::from("1 + 2");
    let ts = tokenize(&s).unwrap();
    assert_eq!(ts.len(), 3);
    assert_eq!(ts[0], Token::Num(String::from("1")));
    assert_eq!(ts[1], Token::Plus);
    assert_eq!(ts[2], Token::Num(String::from("2")));
}

#[test]
fn test_str_literal() {
    let s = String::from("\"my string 1\"");
    let ts = tokenize(&s).unwrap();
    assert_eq!(ts.len(), 1);
    assert_eq!(ts[0], Token::Str(s));
}

#[test]
fn test_float_literal() {
    let s = String::from("1.72");
    let ts = tokenize(&s).unwrap();
    assert_eq!(ts.len(), 1);
    assert_eq!(ts[0], Token::Num(s));
}

fn test_path(s: &str) {
    let path = String::from(s);
    let ts = tokenize(&path).unwrap();
    assert_eq!(ts.len(), 1);
    assert_eq!(ts[0], Token::Path(path));
    assert!(exprlang::test_path(s));
}

#[test]
fn test_multi_path() {
    let test_paths: Vec<&str> = vec![
        r"D:\this\file.txt",
        r"C:\this\path",
        r"~\home\path",
        r".\this\path",
        r".\this\file.txt",
        r"..\thats\path",
        r"\\this\path",
        r".",
        r"..",
        r"~",
        r"~/this/path",
        r"./this/path",
        r"../that/path",
        r"/root/path.txt",
        r"/root/path",
    ];
    for path in test_paths.iter() {
        test_path(path);
    }
}

#[test]
fn test_path_ext_win() {
    test_path(".\\this.txt");
}

#[test]
fn test_path_ms_win() {
    test_path(".\\multi\\segments");
}

#[test]
fn test_path_ext_unix() {
    test_path("./this.txt");
}

#[test]
fn test_path_ms_unix() {
    test_path("./multi/segments");
}

#[test]
fn test_path_home() {
    test_path("~");
}

#[test]
fn test_path_dot() {
    test_path(".");
}

#[test]
fn test_path_dotdot() {
    test_path("..");
}

#[test]
fn test_path_resolved() {
    test_path("resolved-from-path");
}

#[test]
fn test_param() {
    let params = vec![
        String::from("--parameter"),
        String::from("-r"),
        String::from("--param-eter"),
        String::from("-param"),
    ];
    for par in params.iter() {
        let ts = tokenize(par).unwrap();
        assert_eq!(ts.len(), 1);
        assert_eq!(ts[0], Token::Param(String::from(par)));
    }
}
