use word_ladder::ancestry::AncestryMap;
use word_ladder::Solution;

fn strings(words: &[&str]) -> Vec<String> {
    let mut v: Vec<String> = Vec::new();
    for w in words {
        v.push(String::from(*w));
    }
    v
}

#[test]
fn sample_1() {
    let target = vec![
        vec!["hit", "hot", "dot", "dog", "cog"],
        vec!["hit", "hot", "lot", "log", "cog"],
    ];
    let word_list = Solution::text_fixture_1();
    let result = Solution::ladder_length(String::from("hit"), String::from("cog"), word_list);
    assert_eq!(result, target);
}

#[test]
fn sample_2() {
    let word_list = Solution::text_fixture_2();
    let result = Solution::ladder_length(String::from("hit"), String::from("cog"), word_list);
    assert_eq!(result.len(), 0);
}

#[test]
fn construct_path() {
    let target = ["hit", "hot", "dot"];
    let result = Solution::construct_path(&String::from("dog"), &Solution::text_fixture_3());
    assert_eq!(result, target);
}

#[test]
fn construct_path_without_entry_is_empty() {
    let result = Solution::construct_path(&String::from("hit"), &Solution::text_fixture_3());
    assert_eq!(result.len(), 0);
}

#[test]
fn begin_equals_end_with_empty_dictionary() {
    let result = Solution::ladder_length(String::from("same"), String::from("same"), Vec::new());
    assert_eq!(result, vec![vec!["same"]]);
}

#[test]
fn begin_equals_end_ignores_dictionary() {
    let word_list = Solution::text_fixture_1();
    let result = Solution::ladder_length(String::from("dog"), String::from("dog"), word_list);
    assert_eq!(result, vec![vec!["dog"]]);
}

#[test]
fn target_listed_but_unreachable() {
    let word_list = strings(&["cog"]);
    let result = Solution::ladder_length(String::from("hit"), String::from("cog"), word_list);
    assert_eq!(result.len(), 0);
}

#[test]
fn single_character_words() {
    let word_list = strings(&["b", "c"]);
    let result = Solution::ladder_length(String::from("a"), String::from("c"), word_list);
    assert_eq!(result, vec![vec!["a", "c"]]);
}

#[test]
fn input_case_is_normalized() {
    let word_list = strings(&["HOT", "dot", "dog", "lot", "log", "Cog"]);
    let result = Solution::ladder_length(String::from("HIT"), String::from("coG"), word_list);
    let target = vec![
        vec!["hit", "hot", "dot", "dog", "cog"],
        vec!["hit", "hot", "lot", "log", "cog"],
    ];
    assert_eq!(result, target);
}

#[test]
fn repeated_invocations_agree() {
    let first = Solution::ladder_length(
        String::from("hit"),
        String::from("cog"),
        Solution::text_fixture_1(),
    );
    let second = Solution::ladder_length(
        String::from("hit"),
        String::from("cog"),
        Solution::text_fixture_1(),
    );
    assert_eq!(first, second);
}

#[test]
fn all_results_share_one_length() {
    let result = Solution::ladder_length(
        String::from("hit"),
        String::from("cog"),
        Solution::text_fixture_1(),
    );
    assert!(result.len() > 0);
    for path in &result {
        assert_eq!(path.len(), result[0].len());
    }
}

#[test]
fn adjacent_words_differ_in_one_position() {
    let result = Solution::ladder_length(
        String::from("hit"),
        String::from("cog"),
        Solution::text_fixture_1(),
    );
    for path in &result {
        for pair in path.windows(2) {
            let a: Vec<char> = pair[0].chars().collect();
            let b: Vec<char> = pair[1].chars().collect();
            assert_eq!(a.len(), b.len());
            let diffs = a.iter().zip(b.iter()).filter(|(x, y)| x != y).count();
            assert_eq!(diffs, 1);
        }
    }
}

#[test]
fn to_char_vec_lowercases() {
    let buffer = Solution::to_char_vec(&String::from("AbC"));
    assert_eq!(buffer, vec!['a', 'b', 'c']);
}

#[test]
fn to_string_round_trip() {
    let buffer = Solution::to_char_vec(&String::from("AbC"));
    assert_eq!(Solution::to_string(&buffer), "abc");
}

#[test]
fn canonical_buffer_survives_round_trip() {
    let buffer = Solution::to_char_vec(&String::from("dog"));
    let again = Solution::to_char_vec(&Solution::to_string(&buffer));
    assert_eq!(again, buffer);
}

#[test]
fn ancestry_records_each_discovery_once() {
    let mut map = AncestryMap::new(String::from("hit"));
    assert!(!map.contains_key(&String::from("hot")));
    map.insert(String::from("hot"), String::from("hit"));
    assert!(map.contains_key(&String::from("hot")));
    assert!(!map.contains_key(&String::from("hit")));
    let path = Solution::construct_path(&String::from("hot"), &map);
    assert_eq!(path, ["hit"]);
}

#[test]
fn dictionary_collapses_case_variants() {
    let list = strings(&["Hot", "hot", "HOT"]);
    let dict = Solution::to_char_hash_set(&list);
    assert!(dict.contains(&Solution::to_char_vec(&String::from("hOt"))));
    assert!(!dict.contains(&Solution::to_char_vec(&String::from("dog"))));
    assert_eq!(dict.len(), 1);
}

#[test]
fn dictionary_len_counts_distinct_words() {
    let dict = Solution::to_char_hash_set(&Solution::text_fixture_1());
    assert_eq!(dict.len(), 6);
    let two_variants = strings(&["HOT", "hot"]);
    assert_eq!(Solution::to_char_hash_set(&two_variants).len(), 1);
}
