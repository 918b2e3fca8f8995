use word_chains::adjacency::{join_line, WordAdjacencyList};
use word_chains::dictionary::{clean_word, is_plain_lowercase};
use word_chains::directories::RelativeDirectories;
use word_chains::text::{chars_of, join_words, split_words};

#[test]
fn clean_word_lowercases_and_trims() {
    assert_eq!(clean_word("Hello"), Some("hello".to_string()));
    assert_eq!(clean_word("  Abc "), Some("abc".to_string()));
    assert_eq!(clean_word("CAT"), Some("cat".to_string()));
}

#[test]
fn clean_word_drops_short_and_foreign_entries() {
    assert_eq!(clean_word("ab"), None);
    assert_eq!(clean_word("Ox"), None);
    assert_eq!(clean_word("don't"), None);
    assert_eq!(clean_word("café"), None);
    assert_eq!(clean_word("two words"), None);
}

#[test]
fn plain_lowercase_letters() {
    assert!(is_plain_lowercase("abcxyz"));
    assert!(is_plain_lowercase(""));
    assert!(!is_plain_lowercase("abC"));
    assert!(!is_plain_lowercase("a-b"));
}

#[test]
fn directories_relative_to_dictionary() {
    let dirs = RelativeDirectories::new("/data/dictionaries".to_string()).unwrap();
    assert_eq!(dirs.dictionary_directory(), "/data/dictionaries");
    assert_eq!(dirs.output_directory(), "/data/output");
    assert_eq!(dirs.corpus_file(), "/data/output/corpus.txt");
    assert_eq!(dirs.all_adjacency_file(5), "/data/output/all_adjacency_lists_05.txt");
    assert_eq!(dirs.all_adjacency_file(12), "/data/output/all_adjacency_lists_12.txt");
    assert_eq!(
        dirs.largest_component_adjacency_file(7),
        "/data/output/largest_component_adjacency_lists_07.txt"
    );
    assert_eq!(dirs.word_stats_file(), "/data/output/word_stats.csv");
    assert_eq!(dirs.chains_directory(3), "/data/output/chains_03");
    assert_eq!(dirs.chain_file("cat"), "/data/output/chains_03/cat.txt");
}

#[test]
fn directories_of_a_relative_path() {
    let dirs = RelativeDirectories::new("dictionaries".to_string()).unwrap();
    assert_eq!(dirs.output_directory(), "output");
    let dirs = RelativeDirectories::new("words/dictionaries/".to_string()).unwrap();
    assert_eq!(dirs.output_directory(), "words/output");
}

#[test]
fn directories_need_a_parent() {
    assert!(RelativeDirectories::new("/".to_string()).is_none());
    assert!(RelativeDirectories::new(String::new()).is_none());
}

#[test]
fn split_words_drops_empty_pieces() {
    assert_eq!(split_words("  cat  cot "), vec!["cat".to_string(), "cot".to_string()]);
    assert!(split_words("   ").is_empty());
    assert_eq!(split_words("dog"), vec!["dog".to_string()]);
}

#[test]
fn joining_words() {
    let words = vec!["cat".to_string(), "cot".to_string()];
    assert_eq!(join_words(&words), "cat cot");
    assert_eq!(join_words(&Vec::new()), "");
    assert_eq!(join_line(&"cop".to_string(), &words), "cop cat cot");
    assert_eq!(join_line(&"dog".to_string(), &Vec::new()), "dog ");
    assert_eq!(chars_of("héllo"), vec!['h', 'é', 'l', 'l', 'o']);
}

#[test]
fn adjacency_list_line() {
    let mut list = WordAdjacencyList::new("cot".to_string());
    assert_eq!(list.line(), "cot ");
    list.add_adjacent_word("cat".to_string());
    list.add_adjacent_word("cop".to_string());
    assert_eq!(list.line(), "cot cat cop");
}
