use std::borrow::Cow;

use matcher_rs::builder::SimpleResult;
use matcher_rs::matcher::{merge_word_matches, plan_matcher, MatchTable, MatchTableType, WordTableConf};
use matcher_rs::sim_matcher::{SimHit, SimMatchType};
use matcher_rs::{ProcessType, RegexMatchType, RegexResult};

fn words(ws: &[&str]) -> Vec<String> {
    ws.iter().map(|w| w.to_string()).collect()
}

fn tables() -> Vec<MatchTable> {
    vec![
        MatchTable {
            match_id: 1,
            table_id: 10,
            match_table_type: MatchTableType::Simple { process_type: ProcessType::Raw() },
            word_list: words(&["apple", "banana"]),
            exemption_process_type: ProcessType::Delete(),
            exemption_word_list: words(&["rotten apple"]),
        },
        MatchTable {
            match_id: 2,
            table_id: 20,
            match_table_type: MatchTableType::Regex {
                process_type: ProcessType::Normalize(),
                regex_match_type: RegexMatchType::Regex,
            },
            word_list: words(&["b.n"]),
            exemption_process_type: ProcessType::Raw(),
            exemption_word_list: vec![],
        },
        MatchTable {
            match_id: 3,
            table_id: 30,
            match_table_type: MatchTableType::Similar {
                process_type: ProcessType::VariantNorm(),
                sim_match_type: SimMatchType::Levenshtein,
            },
            word_list: words(&["hello"]),
            exemption_process_type: ProcessType::Raw(),
            exemption_word_list: vec![],
        },
        MatchTable {
            match_id: 1,
            table_id: 11,
            match_table_type: MatchTableType::Simple { process_type: ProcessType::Raw() },
            word_list: words(&["cherry"]),
            exemption_process_type: ProcessType::Raw(),
            exemption_word_list: vec![],
        },
    ]
}

#[test]
fn plan_sorts_tables_by_engine_and_numbers_simple_words() {
    let ts = tables();
    let plan = plan_matcher(&ts);
    assert_eq!(
        plan.process_types,
        vec![
            ProcessType::Raw(),
            ProcessType::Delete(),
            ProcessType::Normalize(),
            ProcessType::VariantNorm(),
            ProcessType::Raw()
        ]
    );
    assert_eq!(
        plan.word_confs,
        vec![
            WordTableConf { match_id: 1, table_id: 10, offset: 0, is_exemption: false },
            WordTableConf { match_id: 1, table_id: 10, offset: 2, is_exemption: true },
            WordTableConf { match_id: 1, table_id: 11, offset: 3, is_exemption: false },
        ]
    );
    assert_eq!(plan.conf_index, vec![0, 0, 1, 2]);
    let simple: Vec<(ProcessType, u32, &str)> =
        plan.simple_words.iter().map(|w| (w.process_type, w.word_id, w.word)).collect();
    assert_eq!(
        simple,
        vec![
            (ProcessType::Raw(), 0, "apple"),
            (ProcessType::Raw(), 1, "banana"),
            (ProcessType::Delete(), 2, "rotten apple"),
            (ProcessType::Raw(), 3, "cherry"),
        ]
    );
    assert_eq!(plan.regex_tables.len(), 1);
    assert_eq!(plan.regex_tables[0].table_id, 20);
    assert_eq!(plan.regex_tables[0].word_list, vec!["b.n"]);
    assert_eq!(plan.sim_tables.len(), 1);
    assert_eq!(plan.sim_tables[0].table_index, 2);
    assert_eq!(plan.sim_tables[0].word_list, vec!["hello"]);
    // Raw, Delete, Normalize and VariantNorm each get their node under the root.
    assert_eq!(plan.process_type_tree.len(), 4);
}

#[test]
fn exemption_hit_suppresses_its_table() {
    let ts = tables();
    let plan = plan_matcher(&ts);
    let simple_hits = vec![
        SimpleResult { word_id: 0, word: Cow::Borrowed("apple") },
        SimpleResult { word_id: 2, word: Cow::Borrowed("rotten apple") },
        SimpleResult { word_id: 3, word: Cow::Borrowed("cherry") },
    ];
    let regex_hits = vec![
        RegexResult { match_id: 2, table_id: 20, word_id: 0, word: Cow::Owned("b.n".to_string()) },
        RegexResult { match_id: 1, table_id: 10, word_id: 7, word: Cow::Owned("x".to_string()) },
    ];
    let sim_hits = vec![SimHit { match_id: 3, table_id: 30, word_id: 0, word: "hello".to_string() }];
    let groups = merge_word_matches(&plan.word_confs, &plan.conf_index, &simple_hits, &regex_hits, &sim_hits);
    let mut ids: Vec<u32> = groups.iter().map(|g| g.0).collect();
    ids.sort();
    assert_eq!(ids, vec![1, 2, 3]);
    let g1 = &groups.iter().find(|g| g.0 == 1).unwrap().1;
    assert_eq!(g1.len(), 1);
    assert_eq!((g1[0].table_id, g1[0].word_id, g1[0].word.as_str()), (11, 0, "cherry"));
    let g2 = &groups.iter().find(|g| g.0 == 2).unwrap().1;
    assert_eq!((g2[0].table_id, g2[0].word.as_str(), g2[0].similar), (20, "b.n", None));
    let g3 = &groups.iter().find(|g| g.0 == 3).unwrap().1;
    assert_eq!((g3[0].table_id, g3[0].word.as_str(), g3[0].similar), (30, "hello", Some(0)));
}

#[test]
fn match_ids_without_kept_hits_are_absent() {
    let ts = tables();
    let plan = plan_matcher(&ts);
    let simple_hits = vec![SimpleResult { word_id: 2, word: Cow::Borrowed("rotten apple") }];
    let groups = merge_word_matches(&plan.word_confs, &plan.conf_index, &simple_hits, &vec![], &vec![]);
    assert!(groups.is_empty());
    let only = vec![SimpleResult { word_id: 1, word: Cow::Borrowed("banana") }];
    let groups = merge_word_matches(&plan.word_confs, &plan.conf_index, &only, &vec![], &vec![]);
    assert_eq!(groups.len(), 1);
    assert_eq!(groups[0].0, 1);
    assert_eq!((groups[0].1[0].word_id, groups[0].1[0].word.as_str()), (1, "banana"));
}
