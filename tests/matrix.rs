use matrix_appservice::{mxc_to_url, MatrixToItem, MxcConversionError};

#[test]
fn url_of_each_item() {
    assert_eq!(
        MatrixToItem::User("@sed:t2bot.io".to_string()).to_url_string(),
        "https://matrix.to/#/@sed:t2bot.io"
    );
    assert_eq!(
        MatrixToItem::Group("+grp:x.org".to_string()).to_url_string(),
        "https://matrix.to/#/+grp:x.org"
    );
    assert_eq!(
        MatrixToItem::Event("!r:x.org".to_string(), "$e".to_string()).to_url_string(),
        "https://matrix.to/#/!r:x.org/$e"
    );
}

#[test]
fn mxc_download_url() {
    assert_eq!(
        mxc_to_url("https://matrix.example.org/", "mxc://example.org/abcDEF123").unwrap(),
        "https://matrix.example.org/_matrix/media/r0/download/example.org/abcDEF123"
    );
}

#[test]
fn mxc_wrong_scheme() {
    assert!(matches!(
        mxc_to_url("https://h.org/", "https://example.org/abc"),
        Err(MxcConversionError::NonMxc)
    ));
}

#[test]
fn mxc_malformed() {
    assert!(matches!(
        mxc_to_url("https://h.org/", "mxc://example.org"),
        Err(MxcConversionError::InvalidMxc)
    ));
    assert!(matches!(
        mxc_to_url("https://h.org/", "mxc://example.org/bad_id!"),
        Err(MxcConversionError::InvalidMxc)
    ));
}

#[test]
fn mxc_unparsable_result() {
    assert!(matches!(
        mxc_to_url("not a url ", "mxc://example.org/abc"),
        Err(MxcConversionError::UriParseError(_))
    ));
}

#[test]
fn mxc_scheme_without_slashes_is_invalid() {
    assert!(matches!(
        mxc_to_url("https://h.org/", "mxc:example.org/abc"),
        Err(MxcConversionError::InvalidMxc)
    ));
}

#[test]
fn mxc_server_name_too_long() {
    let server = "a".repeat(250);
    let uri = format!("mxc://{}/abc", server);
    assert!(matches!(mxc_to_url("https://h.org/", &uri), Err(MxcConversionError::InvalidMxc)));
    let server = "a".repeat(300);
    let uri = format!("mxc://{}/abc", server);
    assert!(matches!(mxc_to_url("https://h.org/", &uri), Err(MxcConversionError::InvalidMxc)));
}
