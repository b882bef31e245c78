use graphodoc::chars::chars_of;
use graphodoc::node_id::parse_node_id;
use graphodoc::node_id::NodeId;
use graphodoc::text::english_stop_word_list;
use graphodoc::text::extract_tags;
use graphodoc::text::extract_text_and_keywords;
use graphodoc::text::extract_wiki_links;
use graphodoc::text::make_doc;
use graphodoc::text::split_words;

#[test]
fn plain_text_joins_text_and_code_with_spaces() {
    let (text, keywords) = extract_text_and_keywords("# Hello World\n\nSome `code` here.");
    assert_eq!(text, "Hello World Some  code  here. ");
    // hello, world, some and here are English stop words
    assert_eq!(keywords, vec!["code"]);
}

#[test]
fn keywords_are_stemmed_tokens_without_stop_words() {
    let (_, keywords) =
        extract_text_and_keywords("Running documents knowledge Oracle is a an the ab 2024 x-ray notes NOTES");
    assert_eq!(keywords, vec!["run", "document", "knowledg", "oracl", "2024", "note", "note"]);
}

#[test]
fn short_tokens_and_short_stems_are_dropped() {
    // "rag" has three bytes and is kept; "adding" stems to "ad", which is too short
    let (_, keywords) = extract_text_and_keywords("rag ok adding");
    assert_eq!(keywords, vec!["rag"]);
}

#[test]
fn stop_words_come_from_the_english_list() {
    let stops = english_stop_word_list();
    assert!(stops.contains(&"the".to_string()));
    assert!(stops.contains(&"web".to_string()));
    assert!(!stops.contains(&"quantum".to_string()));
    let (_, keywords) = extract_text_and_keywords("the web quantum");
    assert_eq!(keywords, vec!["quantum"]);
}

#[test]
fn keywords_count_bytes_not_chars() {
    let (_, keywords) = extract_text_and_keywords("été ééé ab");
    assert_eq!(keywords, vec!["été", "ééé"]);
}

#[test]
fn empty_markdown_has_no_text() {
    let (text, keywords) = extract_text_and_keywords("");
    assert_eq!(text, "");
    assert!(keywords.is_empty());
}

#[test]
fn words_split_on_unicode_whitespace() {
    let ws = split_words(&chars_of("  a\tbc\u{3000}d \n"));
    let joined: Vec<String> = ws.iter().map(|w| w.iter().collect()).collect();
    assert_eq!(joined, vec!["a", "bc", "d"]);
    assert!(split_words(&chars_of("   ")).is_empty());
}

#[test]
fn wiki_links_take_the_shortest_bracketed_text() {
    let links = extract_wiki_links(&chars_of("See [[Alpha]] and [[Beta Gamma]]. [[x]]]]"));
    assert_eq!(links, vec!["Alpha", "Beta Gamma", "x"]);
}

#[test]
fn wiki_links_stay_on_one_line() {
    assert!(extract_wiki_links(&chars_of("[[a\nb]]")).is_empty());
    assert_eq!(extract_wiki_links(&chars_of("[[[x]]")), vec!["[x"]);
    assert_eq!(extract_wiki_links(&chars_of("[[]]")), vec![""]);
    assert!(extract_wiki_links(&chars_of("[[open")).is_empty());
}

#[test]
fn tags_take_word_characters_after_hash() {
    let tags = extract_tags(&chars_of("#rust is #cool_stuff, ##x # #é1 end#"));
    assert_eq!(tags, vec!["rust", "cool_stuff", "x", "é1"]);
    assert_eq!(extract_tags(&chars_of("#a#b")), vec!["a", "b"]);
}

#[test]
fn documents_are_addressed_by_their_scan_index() {
    let doc = make_doc(
        7,
        "notes/grover.md",
        "grover",
        "Grover's [[search]] is #quantum\n\nquantum search speedup",
    );
    assert_eq!(doc.id, NodeId::U32(7));
    assert_eq!(doc.id, parse_node_id("00000007"));
    assert_eq!(doc.path, "notes/grover.md");
    assert_eq!(doc.title, "grover");
    assert_eq!(doc.content, "Grover's [[search]] is #quantum\n\nquantum search speedup");
    assert_eq!(doc.wiki_links, vec!["search"]);
    assert_eq!(doc.tags, vec!["quantum"]);
    assert!(doc.keywords.contains(&"quantum".to_string()));
    assert!(doc.keywords.contains(&"search".to_string()));
    assert_eq!(make_doc(0, "a.md", "a", "").id, NodeId::U32(0));
}
