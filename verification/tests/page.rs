use recipe_search::keyed::StrMap;
use recipe_search::search::{Article, Filters, Items};
use recipe_search::ui::{
    checkbox_selector, checkbox_selectors, edit_steps, filter_texts, filters_from_checked, format_filter, id_selector,
    parse_filter, EditConfig, Field, PageConfig,
};

#[test]
fn id_selector_prefixes_hash() {
    assert_eq!(id_selector("card-title"), "#card-title");
    assert_eq!(id_selector(""), "#");
}

#[test]
fn checkbox_selector_names_taxonomy_and_term() {
    assert_eq!(
        checkbox_selector("season", "summer"),
        "input[type=\"checkbox\"][name=\"season\"][value=\"summer\"]"
    );
}

#[test]
fn parse_filter_splits_at_first_colon() {
    assert_eq!(parse_filter("season:summer"), Some(("season".to_string(), "summer".to_string())));
    assert_eq!(parse_filter("a:b:c"), Some(("a".to_string(), "b:c".to_string())));
    assert_eq!(parse_filter(":x"), Some(("".to_string(), "x".to_string())));
    assert_eq!(parse_filter("nocolon"), None);
    assert_eq!(parse_filter(""), None);
}

#[test]
fn parse_filter_agrees_with_split_once() {
    for s in ["k:v", "::", "x", "ü:é:z", "tab\t:val"].iter() {
        let expected = s.split_once(':').map(|(a, b)| (a.to_string(), b.to_string()));
        assert_eq!(parse_filter(s), expected);
    }
}

#[test]
fn format_then_parse_gives_back_the_filter() {
    let text = format_filter("tool", "oven");
    assert_eq!(text, "tool:oven");
    assert_eq!(parse_filter(&text), Some(("tool".to_string(), "oven".to_string())));
}

#[test]
fn checkbox_selectors_skip_texts_without_colon() {
    let got = checkbox_selectors(&["season:summer".to_string(), "junk".to_string(), "tool:oven".to_string()]);
    assert_eq!(
        got,
        vec![
            "input[type=\"checkbox\"][name=\"season\"][value=\"summer\"]".to_string(),
            "input[type=\"checkbox\"][name=\"tool\"][value=\"oven\"]".to_string(),
        ]
    );
}

#[test]
fn checked_boxes_become_filters() {
    let boxes = vec![
        (Some("season".to_string()), Some("summer".to_string())),
        (Some("season".to_string()), None),
        (None, Some("oven".to_string())),
        (Some("tool".to_string()), Some("oven".to_string())),
        (Some("season".to_string()), Some("winter".to_string())),
        (Some("season".to_string()), Some("summer".to_string())),
    ];
    let f = filters_from_checked(&boxes);
    assert_eq!(f.entries.len(), 2);
    let season = f.get("season").unwrap();
    assert!(season.contains("summer") && season.contains("winter"));
    assert_eq!(season.terms.len(), 2);
    assert!(f.get("tool").unwrap().contains("oven"));
}

#[test]
fn filter_texts_list_every_pair() {
    let mut f: Filters = StrMap::new();
    f.add_term("season".to_string(), "summer".to_string());
    f.add_term("tool".to_string(), "oven".to_string());
    f.add_term("season".to_string(), "winter".to_string());
    let mut got = filter_texts(&f);
    got.sort();
    assert_eq!(got, vec!["season:summer", "season:winter", "tool:oven"]);
    let back: Vec<_> = got.iter().map(|t| parse_filter(t).unwrap()).collect();
    assert_eq!(back[2], ("tool".to_string(), "oven".to_string()));
}

#[test]
fn edit_steps_fill_a_card() {
    let page = PageConfig {
        template_id: "template".to_string(),
        list_id: "list".to_string(),
        inner: None,
        edit: vec![
            EditConfig {
                id: "title".to_string(),
                html_field: Field::InnerHTML,
                article_field: "title".to_string(),
            },
            EditConfig {
                id: "image".to_string(),
                html_field: Field::Attribute("src".to_string()),
                article_field: "image".to_string(),
            },
        ],
    };
    let mut fields = StrMap::new();
    fields.insert("title".to_string(), "Tomato soup".to_string());
    fields.insert("image".to_string(), "/soup.png".to_string());
    let mut taxonomies: StrMap<Items> = StrMap::new();
    taxonomies.insert("season".to_string(), Items { item: vec!["summer".to_string()] });
    let a = Article { taxonomies, fields };
    let steps = edit_steps(&page, &a);
    assert_eq!(steps.len(), 2);
    assert_eq!(steps[0].selector, "#title");
    assert!(matches!(steps[0].field, Field::InnerHTML));
    assert_eq!(steps[0].value, "Tomato soup");
    assert_eq!(steps[1].selector, "#image");
    assert!(matches!(&steps[1].field, Field::Attribute(a) if a == "src"));
    assert_eq!(steps[1].value, "/soup.png");
}
