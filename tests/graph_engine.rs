use word_chains::adjacency::{adjacency_file_lines, calc_adjacency_lists, one_letter_different};
use word_chains::completed::{get_completed_words, CompletedWords};
use word_chains::components::Component;
use word_chains::corpus::{Corpus, WordSet};
use word_chains::graph::Graph;
use word_chains::loader::LoadError;
use word_chains::longest_path::{calc_lp, calculate_longest_path_for_word, chain_text, words_still_to_do};
use word_chains::stats::calculate_graph_stats;

fn strings(words: &[&str]) -> Vec<String> {
    words.iter().map(|w| w.to_string()).collect()
}

fn scenario_a_lines() -> Vec<String> {
    adjacency_file_lines(&strings(&["cat", "cop", "cot", "dog"])).unwrap()
}

fn scenario_a_graph() -> Graph {
    Graph::from_adjacency_lines(&scenario_a_lines()).unwrap()
}

fn words_of(graph: &Graph, path: &[usize]) -> Vec<String> {
    path.iter().map(|&i| graph.vertices[i].word.clone()).collect()
}

#[test]
fn one_letter_different_cases() {
    assert!(one_letter_different("cat", "cot"));
    assert!(one_letter_different("cot", "cop"));
    assert!(!one_letter_different("cat", "cop"));
    assert!(!one_letter_different("cat", "cat"));
    assert!(!one_letter_different("dog", "cat"));
    assert!(one_letter_different("a", "b"));
    assert!(!one_letter_different("", ""));
}

#[test]
fn adjacency_is_symmetric_in_a_bucket() {
    let words = strings(&["cat", "cot", "cop", "dog", "dot", "cog"]);
    let lists = calc_adjacency_lists(&words);
    for a in &lists {
        for b in &lists {
            let a_has_b = a.adjacent_words.contains(&b.anchor);
            let b_has_a = b.adjacent_words.contains(&a.anchor);
            assert_eq!(a_has_b, b_has_a, "{} / {}", a.anchor, b.anchor);
        }
    }
}

#[test]
fn scenario_a_adjacency_lines() {
    let lines = scenario_a_lines();
    assert_eq!(lines, strings(&["cat cot", "cop cot", "cot cat cop", "dog "]));
}

#[test]
fn scenario_a_components() {
    let graph = scenario_a_graph();
    assert_eq!(graph.size(), 4);
    let comps: Vec<Component> = graph.components();
    assert_eq!(comps.len(), 2);
    assert_eq!(comps[0].num_vertices, 3);
    assert_eq!(comps[1].num_vertices, 1);
    let cat = graph.get_index_for_word("cat").unwrap();
    let cot = graph.get_index_for_word("cot").unwrap();
    let cop = graph.get_index_for_word("cop").unwrap();
    let dog = graph.get_index_for_word("dog").unwrap();
    assert_eq!(graph.vertices[cat].component, graph.vertices[cot].component);
    assert_eq!(graph.vertices[cat].component, graph.vertices[cop].component);
    assert_ne!(graph.vertices[cat].component, graph.vertices[dog].component);
    assert_eq!(comps[0].number, graph.vertices[cat].component);
    assert_eq!(comps[1].number, graph.vertices[dog].component);
}

#[test]
fn scenario_b_two_word_bucket_is_skipped() {
    assert!(adjacency_file_lines(&strings(&["cat", "cot"])).is_none());
    assert!(adjacency_file_lines(&strings(&["cat"])).is_none());
    assert!(adjacency_file_lines(&Vec::new()).is_none());
}

#[test]
fn bucket_without_neighbours_is_skipped() {
    assert!(adjacency_file_lines(&strings(&["cat", "dog", "pig"])).is_none());
}

#[test]
fn scenario_c_longest_path_from_end() {
    let graph = Graph::from_adjacency_lines(&graph_lines_of_largest()).unwrap();
    let cat = graph.get_index_for_word("cat").unwrap();
    let path = calc_lp(&graph, cat);
    assert_eq!(words_of(&graph, &path), strings(&["cat", "cot", "cop"]));
    assert_eq!(chain_text(&graph, &path), Some("cat cot cop".to_string()));
}

#[test]
fn scenario_c_longest_path_from_middle() {
    let graph = Graph::from_adjacency_lines(&graph_lines_of_largest()).unwrap();
    let path = calculate_longest_path_for_word(&graph, "cot").unwrap();
    // The walk never backtracks: from "cot" it takes "cat" first and stops there.
    assert_eq!(words_of(&graph, &path), strings(&["cot", "cat"]));
    assert!(calculate_longest_path_for_word(&graph, "zzz").is_none());
}

fn graph_lines_of_largest() -> Vec<String> {
    scenario_a_graph().largest_component_lines()
}

#[test]
fn largest_component_lines_hold_only_that_component() {
    let lines = graph_lines_of_largest();
    assert_eq!(lines, strings(&["cat cot", "cop cot", "cot cat cop"]));
}

#[test]
fn largest_component_tie_goes_to_lowest_number() {
    let lines = strings(&["abc abd", "abd abc", "xyz xyw", "xyw xyz"]);
    let graph = Graph::from_adjacency_lines(&lines).unwrap();
    assert_eq!(graph.largest_component_lines(), strings(&["abc abd", "abd abc"]));
}

#[test]
fn single_vertex_walk_is_not_written() {
    let graph = scenario_a_graph();
    let dog = graph.get_index_for_word("dog").unwrap();
    let path = calc_lp(&graph, dog);
    assert_eq!(path, vec![dog]);
    assert_eq!(chain_text(&graph, &path), None);
}

#[test]
fn partition_sizes_add_up() {
    let graph = scenario_a_graph();
    let sizes = graph.component_sizes();
    assert_eq!(sizes.iter().sum::<usize>(), graph.size());
    let total: usize = graph.components().iter().map(|c| c.num_vertices).sum();
    assert_eq!(total, graph.size());
}

#[test]
fn scenario_a_statistics() {
    let graph = scenario_a_graph();
    let stats = calculate_graph_stats(&graph);
    assert_eq!(stats.word_length, 3);
    assert_eq!(stats.total_word_count, 4);
    assert_eq!(stats.num_components, 2);
    assert_eq!(stats.num_one_components, 1);
    assert_eq!(stats.num_two_components, 0);
    assert_eq!(stats.num_three_components, 1);
    assert_eq!(stats.largest_five_component_counts, vec![3, 1]);
    assert_eq!(stats.largest_component_word_count(), 3);
    assert_eq!(stats.largest_component_leaf_count, 2);
    assert_eq!(stats.largest_component_upper_bound(), 3);
    assert_eq!(stats.max_adjacents_count, 2);
    assert_eq!(stats.max_adjacents_word, "cot");
    assert_eq!(stats.max_adjacencts_list, strings(&["cat", "cop"]));
    assert_eq!(stats.top_five_text(), "3,1");
    assert_eq!(stats.max_adjacents_text(), "cat,cop");
}

#[test]
fn statistics_are_self_consistent() {
    let words = strings(&["bat", "bit", "cat", "cot", "cut", "dog", "fig", "fog", "hut", "pig"]);
    let graph = Graph::from_adjacency_lines(&adjacency_file_lines(&words).unwrap()).unwrap();
    let stats = calculate_graph_stats(&graph);
    assert!(stats.num_one_components + stats.num_two_components + stats.num_three_components <= stats.num_components);
    assert!(stats.largest_component_upper_bound() <= stats.largest_component_word_count());
}

#[test]
fn upper_bound_discounts_extra_leaves() {
    // A star: "cat" in the middle with four leaves.
    let lines = strings(&["cat bat eat hat mat", "bat cat", "eat cat", "hat cat", "mat cat"]);
    let graph = Graph::from_adjacency_lines(&lines).unwrap();
    let stats = calculate_graph_stats(&graph);
    assert_eq!(stats.largest_component_leaf_count, 4);
    assert_eq!(stats.largest_component_upper_bound(), 3);
}

#[test]
fn max_degree_ties_pick_the_last_vertex() {
    let lines = strings(&["aa ab", "ab aa", "xa xb", "xb xa"]);
    let graph = Graph::from_adjacency_lines(&lines).unwrap();
    let stats = calculate_graph_stats(&graph);
    assert_eq!(stats.max_adjacents_word, "xb");
}

#[test]
fn round_trip_reproduces_the_graph() {
    let graph = scenario_a_graph();
    let again = Graph::from_adjacency_lines(&graph.adjacency_lines()).unwrap();
    assert_eq!(again.size(), graph.size());
    for i in 0..graph.size() {
        assert_eq!(again.vertices[i].word, graph.vertices[i].word);
        assert_eq!(again.vertices[i].adjacency_list, graph.vertices[i].adjacency_list);
    }
}

#[test]
fn loader_tolerates_trailing_and_repeated_spaces() {
    let lines = strings(&["cat  cot ", " cot cat", "dog"]);
    let graph = Graph::from_adjacency_lines(&lines).unwrap();
    assert_eq!(graph.size(), 3);
    assert_eq!(graph.vertices[0].adjacency_list, vec![1]);
    assert_eq!(graph.vertices[1].word, "cot");
    assert_eq!(graph.vertices[2].adjacency_list, Vec::<usize>::new());
}

#[test]
fn loader_rejects_an_empty_line() {
    let lines = strings(&["cat cot", "   ", "cot cat"]);
    assert_eq!(Graph::from_adjacency_lines(&lines).err(), Some(LoadError::EmptyLine));
}

#[test]
fn loader_rejects_a_duplicate_anchor() {
    let lines = strings(&["cat cot", "cot cat", "cat"]);
    assert_eq!(Graph::from_adjacency_lines(&lines).err(), Some(LoadError::DuplicateWord));
}

#[test]
fn loader_rejects_an_unknown_neighbour() {
    let lines = strings(&["cat cot", "cot cat cop"]);
    assert_eq!(Graph::from_adjacency_lines(&lines).err(), Some(LoadError::UnknownWord));
}

#[test]
fn builder_methods_link_words() {
    let mut graph = Graph::new();
    graph.add_anchor_word("cat".to_string());
    graph.add_anchor_word("cot".to_string());
    graph.add_reachable_word("cat", "cot");
    graph.add_reachable_word("cot", "cat");
    graph.calculate_components();
    assert_eq!(graph.word_length(), 3);
    assert_eq!(graph.vertices[0].adjacency_list, vec![1]);
    assert_eq!(graph.vertices[1].adjacency_list, vec![0]);
    assert_eq!(graph.vertices[0].degree(), 1);
    assert!(graph.vertices[0].is_leaf());
    assert_eq!(graph.vertices[0].word(), "cat");
    assert_eq!(graph.get_index_for_word("cot"), Some(1));
    assert_eq!(graph.get_index_for_word("cap"), None);
    assert_eq!(graph.components().len(), 1);
}

#[test]
fn remaining_words_skip_completed_ones() {
    let graph = scenario_a_graph();
    let done = strings(&["cot", "zzz"]);
    let todo = words_still_to_do(&graph, &done);
    assert_eq!(words_of(&graph, &todo), strings(&["cat", "cop", "dog"]));
}

#[test]
fn second_run_writes_no_new_chain() {
    let graph = scenario_a_graph();
    let mut done: Vec<String> = Vec::new();
    let mut written: Vec<String> = Vec::new();
    for i in words_still_to_do(&graph, &done) {
        let path = calc_lp(&graph, i);
        if chain_text(&graph, &path).is_some() {
            written.push(graph.vertices[i].word.clone());
        }
    }
    assert_eq!(written, strings(&["cat", "cop", "cot"]));
    done.extend(written);
    let mut second: Vec<String> = Vec::new();
    for i in words_still_to_do(&graph, &done) {
        let path = calc_lp(&graph, i);
        if chain_text(&graph, &path).is_some() {
            second.push(graph.vertices[i].word.clone());
        }
    }
    assert!(second.is_empty());
}

#[test]
fn completed_words_by_length() {
    let listings = vec![(3usize, strings(&["cat", "cot"])), (4usize, Vec::new()), (3usize, strings(&["dog"]))];
    let done = get_completed_words(&listings);
    assert_eq!(done.num_complete(3), 3);
    assert_eq!(done.num_complete(4), 0);
    assert_eq!(done.num_complete(5), 0);
    assert_eq!(done.completed_words_of_length(3), strings(&["cat", "cot", "dog"]));
    assert!(done.completed_words_of_length(5).is_empty());
    let mut more = CompletedWords::new();
    more.add(2, "at".to_string());
    assert_eq!(more.num_complete(2), 1);
}

#[test]
fn corpus_groups_words_by_length() {
    let mut corpus = Corpus::new();
    for w in ["cat", "horse", "ox", "dog", "zebra"] {
        corpus.add_word(w.to_string());
    }
    assert_eq!(corpus.sorted_keys(), vec![2, 3, 5]);
    let three: &WordSet = corpus.words_of_length(3).unwrap();
    assert_eq!(three.word_length(), 3);
    assert_eq!(three.words, strings(&["cat", "dog"]));
    assert!(corpus.words_of_length(4).is_none());
    let empty = WordSet::new(7);
    assert_eq!(empty.word_length(), 7);
    assert!(empty.words.is_empty());
}
