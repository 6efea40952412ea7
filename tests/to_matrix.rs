use matrix_appservice::convert::to_matrix::{build_regex, convert, link_spans, Info};
use matrix_appservice::MatrixToItem;

#[test]
fn test_mapping() {
    let before = "hello tom";
    let after = "hello <a href=\"https://matrix.to/#/@tomsg_tom:lieuwe.xyz\">tom</a>";

    let mut info = Info::new();
    info.insert(
        "tom".to_string(),
        MatrixToItem::User("@tomsg_tom:lieuwe.xyz".to_string()),
    );

    let regex = build_regex(&info).unwrap();

    assert_eq!(after, convert(regex, before.to_string(), &info));
}

#[test]
fn test_mapping2() {
    let before = "hello sed[m]";
    let after = "hello <a href=\"https://matrix.to/#/@sed:t2bot.io\">sed[m]</a>";

    let mut info = Info::new();
    info.insert("sed[m]".to_string(), MatrixToItem::User("@sed:t2bot.io".to_string()));

    let regex = build_regex(&info).unwrap();

    assert_eq!(after, convert(regex, before.to_string(), &info));
}

#[test]
fn test_mapping_double() {
    let before = "hello sed[m] voyager[m]";
    let after = "hello <a href=\"https://matrix.to/#/@sed:t2bot.io\">sed[m]</a> <a href=\"https://matrix.to/#/@voyager:t2bot.io\">voyager[m]</a>";

    let mut info = Info::new();
    info.insert("sed[m]".to_string(), MatrixToItem::User("@sed:t2bot.io".to_string()));
    info.insert(
        "voyager[m]".to_string(),
        MatrixToItem::User("@voyager:t2bot.io".to_string()),
    );

    let regex = build_regex(&info).unwrap();

    assert_eq!(after, convert(regex, before.to_string(), &info));
}

#[test]
fn names_inside_longer_words_are_left_alone() {
    let mut info = Info::new();
    info.insert("tom".to_string(), MatrixToItem::User("@tom:x.org".to_string()));
    let regex = build_regex(&info).unwrap();
    assert_eq!(convert(regex, "tomato atom".to_string(), &info), "tomato atom");
}

#[test]
fn text_without_names_is_unchanged() {
    let mut info = Info::new();
    info.insert("tom".to_string(), MatrixToItem::User("@tom:x.org".to_string()));
    let regex = build_regex(&info).unwrap();
    assert_eq!(convert(regex, "nobody here ☃".to_string(), &info), "nobody here ☃");
}

#[test]
fn names_next_to_multibyte_text() {
    let mut info = Info::new();
    info.insert("tom".to_string(), MatrixToItem::User("@tom:x.org".to_string()));
    info.insert("Zoë".to_string(), MatrixToItem::User("@zoe:x.org".to_string()));
    let regex = build_regex(&info).unwrap();
    assert_eq!(
        convert(regex, "☃ Zoë, tom ⛄".to_string(), &info),
        "☃ <a href=\"https://matrix.to/#/@zoe:x.org\">Zoë</a>, <a href=\"https://matrix.to/#/@tom:x.org\">tom</a> ⛄"
    );
}

#[test]
fn longest_name_is_preferred() {
    let mut info = Info::new();
    info.insert("tom".to_string(), MatrixToItem::User("@tom:x.org".to_string()));
    info.insert("tom jones".to_string(), MatrixToItem::User("@tj:x.org".to_string()));
    let regex = build_regex(&info).unwrap();
    assert_eq!(
        convert(regex, "hi tom jones".to_string(), &info),
        "hi <a href=\"https://matrix.to/#/@tj:x.org\">tom jones</a>"
    );
}

#[test]
fn room_and_event_targets() {
    let mut info = Info::new();
    info.insert("lobby".to_string(), MatrixToItem::Group("+lobby:x.org".to_string()));
    info.insert(
        "that".to_string(),
        MatrixToItem::Event("!room:x.org".to_string(), "$ev".to_string()),
    );
    let regex = build_regex(&info).unwrap();
    assert_eq!(
        convert(regex, "lobby that".to_string(), &info),
        "<a href=\"https://matrix.to/#/+lobby:x.org\">lobby</a> <a href=\"https://matrix.to/#/!room:x.org/$ev\">that</a>"
    );
}

#[test]
fn insert_replaces_and_reports_previous() {
    let mut info = Info::new();
    assert_eq!(
        info.insert("tom".to_string(), MatrixToItem::User("@a:x.org".to_string())),
        None
    );
    assert_eq!(
        info.insert("tom".to_string(), MatrixToItem::User("@b:x.org".to_string())),
        Some(MatrixToItem::User("@a:x.org".to_string()))
    );
    assert_eq!(info.get("tom"), Some(&MatrixToItem::User("@b:x.org".to_string())));
    assert_eq!(info.get("bob"), None);
}

#[test]
fn link_spans_passes_over_bad_spans() {
    let mut info = Info::new();
    info.insert("tom".to_string(), MatrixToItem::User("@tom:x.org".to_string()));
    let s = "tom ☃ tom bob";
    // unknown text, empty span, a span inside a multibyte char, an overlapping one, then a good one
    let spans = vec![(11, 14), (0, 0), (5, 6), (0, 3), (1, 3), (8, 11)];
    assert_eq!(
        link_spans(s, &spans, &info),
        "<a href=\"https://matrix.to/#/@tom:x.org\">tom</a> ☃ <a href=\"https://matrix.to/#/@tom:x.org\">tom</a> bob"
    );
    assert_eq!(link_spans(s, &vec![], &info), s);
}

#[test]
fn empty_table_links_nothing() {
    let info = Info::new();
    match build_regex(&info) {
        Some(regex) => assert_eq!(convert(regex, "hello tom".to_string(), &info), "hello tom"),
        None => {}
    }
}

#[test]
fn insertion_order_does_not_matter() {
    let names = ["tom", "tom jones", "al", "bob", "albert"];
    let text = "hi tom jones, al and albert; bob too, tom";
    let mut forward = Info::new();
    for n in names.iter() {
        forward.insert(n.to_string(), MatrixToItem::User(format!("@{}:x.org", n.replace(' ', ""))));
    }
    let mut backward = Info::new();
    for n in names.iter().rev() {
        backward.insert(n.to_string(), MatrixToItem::User(format!("@{}:x.org", n.replace(' ', ""))));
    }
    let a = convert(build_regex(&forward).unwrap(), text.to_string(), &forward);
    let b = convert(build_regex(&backward).unwrap(), text.to_string(), &backward);
    assert_eq!(a, b);
    assert!(a.contains(">tom jones</a>"));
    assert!(a.contains(">albert</a>"));
}

#[test]
fn names_after_non_ascii_letters_are_part_of_the_word() {
    let mut info = Info::new();
    info.insert("tom".to_string(), MatrixToItem::User("@tom:x.org".to_string()));
    let regex = build_regex(&info).unwrap();
    assert_eq!(convert(regex, "étom tomé".to_string(), &info), "étom tomé");
}
