use goldendict_ng_helper::favorite::{
    attribute_of, extract_all_words_from_favorites, extract_words_from_favorites_folder, is_blank,
    FavoriteError, XmlAttribute, XmlNode,
};

const FAVORITES: &str = "<root>\
<folder name=\"fruit\"><fav>apple</fav><fav>pear</fav><fav><b>deep</b></fav></folder>\
<folder name=\"tools\"><fav>saw</fav><fav> </fav><fav/></folder>\
<folder name=\"fruit\"><fav>second</fav></folder>\
</root>";

fn strings(words: &[&str]) -> Vec<String> {
    words.iter().map(|w| w.to_string()).collect()
}

#[test]
fn folder_gives_the_texts_two_levels_below_it() {
    assert_eq!(
        extract_words_from_favorites_folder(FAVORITES, "fruit"),
        Ok(strings(&["apple", "pear", "deep"]))
    );
    assert_eq!(
        extract_words_from_favorites_folder(FAVORITES, "tools"),
        Ok(strings(&["saw", " "]))
    );
}

#[test]
fn folder_of_folders_gives_the_texts_of_its_grandchildren() {
    let xml = "<a name=\"top\"><b name=\"x\">one<c>two</c></b><b>three</b></a>";
    assert_eq!(
        extract_words_from_favorites_folder(xml, "top"),
        Ok(strings(&["one", "two", "three"]))
    );
    assert_eq!(extract_words_from_favorites_folder(xml, "x"), Ok(strings(&["two"])));
}

#[test]
fn unknown_folder_is_an_error() {
    assert_eq!(
        extract_words_from_favorites_folder(FAVORITES, "music"),
        Err(FavoriteError::NoSuchFolder)
    );
}

#[test]
fn text_that_is_no_document_is_an_error() {
    assert_eq!(extract_words_from_favorites_folder("<a><b></a>", "a"), Err(FavoriteError::Malformed));
    assert_eq!(extract_all_words_from_favorites("no markup"), Err(FavoriteError::Malformed));
}

#[test]
fn all_words_leaves_out_the_blank_texts() {
    assert_eq!(
        extract_all_words_from_favorites(FAVORITES),
        Ok(strings(&[
            "apple", "pear", "saw", "second", "apple", "pear", "deep", "deep", "saw", "second"
        ]))
    );
    let xml = "<r><f><w>one</w><w>\n\t </w><w>two</w></f></r>";
    assert_eq!(extract_all_words_from_favorites(xml), Ok(strings(&["one", "two", "one", "two"])));
}

#[test]
fn all_words_go_node_by_node_through_the_grandchildren() {
    let xml = "<a><b><d><e>inner</e></d></b><c><f>last</f></c></a>";
    assert_eq!(
        extract_all_words_from_favorites(xml),
        Ok(strings(&["last", "inner", "inner", "last"]))
    );
}

#[test]
fn attribute_of_takes_the_first_of_the_name() {
    let node = XmlNode {
        parent: None,
        attributes: vec![
            XmlAttribute { name: "id".to_string(), value: "7".to_string() },
            XmlAttribute { name: "name".to_string(), value: "first".to_string() },
            XmlAttribute { name: "name".to_string(), value: "second".to_string() },
        ],
        text: None,
    };
    assert_eq!(attribute_of(&node, "name"), Some(&"first".to_string()));
    assert_eq!(attribute_of(&node, "id"), Some(&"7".to_string()));
    assert_eq!(attribute_of(&node, "class"), None);
}

#[test]
fn blank_texts_are_white_space_only() {
    assert!(is_blank(""));
    assert!(is_blank(" \t\n\u{3000}"));
    assert!(!is_blank(" a "));
}
