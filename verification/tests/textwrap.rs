use intersection::textwrap::chunk_str_vec_into_max_size;
use intersection::textwrap::wrap_string_vec;

#[test]
fn chunk_str_vec_into_max_size_works() {
    let result = chunk_str_vec_into_max_size(
        vec![
            "abc".to_string(),
            "def".to_string(),
            "ghi".to_string(),
            "jkl".to_string(),
            "mno".to_string(),
        ],
        " ",
        7,
    )
    .unwrap();
    assert_eq!(
        result,
        vec![
            "abc def".to_string(),
            "ghi jkl".to_string(),
            "mno".to_string(),
        ]
    );

    let result = chunk_str_vec_into_max_size(
        ('A'..='Z').map(|l| l.to_string()).collect::<Vec<_>>(),
        " ",
        10,
    )
    .unwrap();
    assert_eq!(
        result,
        vec![
            "A B C D E".to_string(),
            "F G H I J".to_string(),
            "K L M N O".to_string(),
            "P Q R S T".to_string(),
            "U V W X Y".to_string(),
            "Z".to_string()
        ]
    );
}

#[test]
fn chunk_str_vec_into_max_size_has_overflow() {
    println!(
        "{:?}",
        chunk_str_vec_into_max_size(vec!["ABCDEF".to_string()], " ", 5)
    );
    assert!(matches!(
        chunk_str_vec_into_max_size(vec!["ABCDEF".to_string()], " ", 5),
        Err(_)
    ));
}

#[test]
fn wrap_string_vec_works() {
    let result = wrap_string_vec(
        &vec![
            "abc".to_string(),
            "def".to_string(),
            "ghi".to_string(),
            "jkl".to_string(),
            "mno".to_string(),
        ],
        " ",
        7,
    )
    .unwrap();
    assert_eq!(
        result,
        vec![
            "abc def".to_string(),
            "ghi jkl".to_string(),
            "mno".to_string(),
        ]
    );

    let result = wrap_string_vec(
        &('A'..='Z').map(|l| l.to_string()).collect::<Vec<_>>(),
        " ",
        10,
    )
    .unwrap();
    assert_eq!(
        result,
        vec![
            "A B C D E".to_string(),
            "F G H I J".to_string(),
            "K L M N O".to_string(),
            "P Q R S T".to_string(),
            "U V W X Y".to_string(),
            "Z".to_string()
        ]
    );
}

#[test]
fn wrap_string_vec_has_overflow() {
    assert!(wrap_string_vec(&vec!["ABCDEF".to_string()], " ", 5).is_err());
}

#[test]
fn wrap_string_vec_empty_input() {
    let result = wrap_string_vec(&Vec::new(), " ", 10).unwrap();
    assert_eq!(result, Vec::<String>::new());
}

#[test]
fn wrap_error_reports_first_oversize() {
    let err = wrap_string_vec(
        &vec!["ok".to_string(), "toolarge".to_string(), "x".to_string()],
        " ",
        5,
    )
    .unwrap_err();
    assert_eq!(err.len, 8);
    assert_eq!(err.size, 5);
}
