use matrix_appservice::convert::to_external::{
    anchor_action, convert, element_action, ElementAction, Info, MentionMap,
};
use matrix_appservice::{MappingDict, Record};

#[test]
fn test_stripping() {
    let info = Info::new();

    let before = "<b>kaas</b>".to_string();
    let after = convert(&before, &info).unwrap();
    assert_eq!(after, "kaas");
}

#[test]
fn test_anchor() {
    let mut user_mapping = MentionMap::new();
    user_mapping.insert("@tomsg_tom:lieuwe.xyz".to_string(), "tom".to_string());

    let info = Info::new().user_mapper(user_mapping);

    let before =
        "<a href=\"https://matrix.to/#/@tomsg_tom:lieuwe.xyz\">tom (tomsg)</a>".to_string();

    let after = convert(&before, &info).unwrap();
    assert_eq!(after, "tom");
}

#[test]
fn test_anchor_room() {
    let mut room_mapping = MentionMap::new();
    room_mapping.insert("#tomsg:lieuwe.xyz".to_string(), "tomsg".to_string());

    let info = Info::new().room_mapper(room_mapping);

    let before = "<a href=\"https://matrix.to/#/#tomsg:lieuwe.xyz\">tomsg</a>".to_string();

    let after = convert(&before, &info).unwrap();
    assert_eq!(after, "tomsg");
}

#[test]
fn test_complex() {
    let mut user_mapping = MentionMap::new();
    user_mapping.insert("@tomsg_tom:lieuwe.xyz".to_string(), "tom".to_string());
    user_mapping.insert("@lieuwe:lieuwe.xyz".to_string(), "lieuwe".to_string());

    let info = Info::new().user_mapper(user_mapping);

    let before =
        "<a href=\"https://matrix.to/#/@tomsg_tom:lieuwe.xyz\">tom (tomsg)</a>: How're you doing, greetings <a href=\"https://matrix.to/#/@lieuwe:lieuwe.xyz\">henk</a>. Btw, here is a cool link <a href=\"google.nl\">bing</a>".to_string();

    let after = convert(&before, &info).unwrap();
    assert_eq!(
        after,
        "tom: How're you doing, greetings lieuwe. Btw, here is a cool link [bing](google.nl)"
    );
}

#[test]
fn test_element_handlers() {
    let mut info = Info::new();
    info.add_element_handler("a".to_string(), ElementAction::Replace("test".to_string()));

    let before = "<a href=\"google.nl\">this will be gone</a>";

    let after = convert(&before, &info).unwrap();
    assert_eq!(after, "test");
}

#[test]
fn test_complex2() {
    let before = "<mx-reply><blockquote><a href=\"https://matrix.to/#/!opVyAOHWsarCVcEQkE:lieuwe.xyz/$wjpDcX-sy3dLophlXRfL0pyE4yotZ5XK8v1DF_VMpoU?via=lieuwe.xyz\">In reply to</a> <a href=\"https://matrix.to/#/@tomsg_tom:lieuwe.xyz\">@tomsg_tom:lieuwe.xyz</a><br>⛄️</blockquote></mx-reply>Hallo <a href=\"https://matrix.to/#/@tomsg_tom:lieuwe.xyz\">tom (tomsg)</a> dit is een test <em>kaas</em> <strong>ham</strong> <a href=\"http://tomsmeding.com/f/kaas.png\">coole site</a>";
    let after = "Hallo tom dit is een test *kaas* **ham** [coole site](http://tomsmeding.com/f/kaas.png)";

    let mut info = Info::new();

    info.add_element_handler("mx-reply".to_string(), ElementAction::Remove);
    info.add_element_handler(
        "em".to_string(),
        ElementAction::Wrap("*".to_string(), "*".to_string()),
    );
    info.add_element_handler(
        "strong".to_string(),
        ElementAction::Wrap("**".to_string(), "**".to_string()),
    );

    let mut user_mapping = MentionMap::new();
    user_mapping.insert("@tomsg_tom:lieuwe.xyz".to_string(), "tom".to_string());

    let info = info.user_mapper(user_mapping);

    assert_eq!(after, convert(&before, &info).unwrap());
}

#[test]
fn stripping_keeps_text_of_nested_tags() {
    let info = Info::new();
    let after = convert("<p>one <i>two</i> <span><b>three</b></span></p>", &info).unwrap();
    assert_eq!(after, "one two three");
}

#[test]
fn plain_text_passes_through() {
    let info = Info::new();
    assert_eq!(convert("just text, no tags", &info).unwrap(), "just text, no tags");
    assert_eq!(convert("", &info).unwrap(), "");
}

#[test]
fn comments_are_removed() {
    let info = Info::new();
    let after = convert("a<!-- hidden -->b<p>c<!-- also hidden --></p>", &info).unwrap();
    assert_eq!(after, "abc");
}

#[test]
fn converting_twice_changes_nothing_more() {
    let mut users = MentionMap::new();
    users.insert("@tomsg_tom:lieuwe.xyz".to_string(), "tom".to_string());
    let info = Info::new().user_mapper(users);
    let once = convert(
        "<b>hi</b> <a href=\"https://matrix.to/#/@tomsg_tom:lieuwe.xyz\">x</a>",
        &info,
    )
    .unwrap();
    assert_eq!(once, "hi tom");
    let twice = convert(&once, &info).unwrap();
    assert_eq!(twice, once);
}

#[test]
fn unresolved_user_mention_becomes_markdown_link() {
    let info = Info::new();
    let after = convert(
        "<a href=\"https://matrix.to/#/@nobody:example.org\">nobody</a>",
        &info,
    )
    .unwrap();
    assert_eq!(after, "[nobody](https://matrix.to/#/@nobody:example.org)");
}

#[test]
fn malformed_mention_falls_back_to_link() {
    let mut users = MentionMap::new();
    users.insert("@broken".to_string(), "should not show".to_string());
    let info = Info::new().user_mapper(users);
    let after = convert("<a href=\"https://matrix.to/#/@broken\">b</a>", &info).unwrap();
    assert_eq!(after, "[b](https://matrix.to/#/@broken)");
}

#[test]
fn anchor_without_href_is_unwrapped() {
    let info = Info::new();
    assert_eq!(convert("<a name=\"x\">anchor text</a>", &info).unwrap(), "anchor text");
}

#[test]
fn custom_anchor_handler_skips_resolution() {
    let mut users = MentionMap::new();
    users.insert("@tomsg_tom:lieuwe.xyz".to_string(), "tom".to_string());
    let mut info = Info::new().user_mapper(users);
    info.add_element_handler("a".to_string(), ElementAction::Unwrap);
    let after = convert(
        "<a href=\"https://matrix.to/#/@tomsg_tom:lieuwe.xyz\">text</a>",
        &info,
    )
    .unwrap();
    assert_eq!(after, "text");
}

#[test]
fn later_handler_replaces_earlier_one() {
    let mut info = Info::new();
    info.add_element_handler("em".to_string(), ElementAction::Remove);
    info.add_element_handler(
        "em".to_string(),
        ElementAction::Wrap("_".to_string(), "_".to_string()),
    );
    assert_eq!(convert("<em>x</em>", &info).unwrap(), "_x_");
}

#[test]
fn anchor_action_each_case() {
    assert_eq!(
        anchor_action(None, Some(ElementAction::Remove), Some("tom".to_string())),
        ElementAction::Remove
    );
    assert_eq!(
        anchor_action(Some("h".to_string()), None, Some("tom".to_string())),
        ElementAction::Replace("tom".to_string())
    );
    assert_eq!(
        anchor_action(Some("google.nl".to_string()), None, None),
        ElementAction::Wrap("[".to_string(), "](google.nl)".to_string())
    );
    assert_eq!(anchor_action(None, None, None), ElementAction::Unwrap);
}

#[test]
fn element_action_for_plain_tags() {
    let mut info = Info::new();
    info.add_element_handler("em".to_string(), ElementAction::Remove);
    assert_eq!(element_action(&info, "b", None), ElementAction::Unwrap);
    assert_eq!(element_action(&info, "em", None), ElementAction::Remove);
    assert_eq!(
        element_action(&info, "a", Some("https://example.org".to_string())),
        ElementAction::Wrap("[".to_string(), "](https://example.org)".to_string())
    );
}

#[test]
fn identity_index_as_user_resolver() {
    let mut users = MappingDict::new();
    users.insert(Record::new("@tomsg_tom:lieuwe.xyz".to_string(), "tom".to_string(), ()));
    let info = Info::new().user_mapper(users);
    let after = convert(
        "hi <a href=\"https://matrix.to/#/@tomsg_tom:lieuwe.xyz\">x</a>",
        &info,
    )
    .unwrap();
    assert_eq!(after, "hi tom");
}

#[test]
fn default_info_strips_everything() {
    let info: Info<_, _> = Default::default();
    assert_eq!(convert("<i>x</i><!-- y -->", &info).unwrap(), "x");
}

#[test]
fn room_mention_unknown_to_resolver_becomes_link() {
    let mut rooms = MentionMap::new();
    rooms.insert("#other:x.org".to_string(), "other".to_string());
    let info = Info::new().room_mapper(rooms);
    assert_eq!(
        convert("<a href=\"https://matrix.to/#/#tomsg:lieuwe.xyz\">t</a>", &info).unwrap(),
        "[t](https://matrix.to/#/#tomsg:lieuwe.xyz)"
    );
}
