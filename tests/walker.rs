use chatgraph::chat::{Chat, group_by_target, pick_weighted};
use chatgraph::database::Database;
use chatgraph::persona::{Character, GeneralPerson, Job, Person};

fn farmer() -> Person {
    Person { job: Job::Farmer, character: Character { hostile: 0, rebellious: 0 } }
}

#[test]
fn walker_offers_the_one_reply_and_walks_to_it() {
    let mut g = Database::new();
    let mut first = Chat::new(&g, true, Some(farmer()));
    first.add_phrase(&mut g, "hi");
    let hi = first.query.unwrap();
    assert!(!first.person.youtalk);

    let mut walker = Chat::new(&g, true, Some(farmer()));
    let offered = walker.get_phrases(&g, |_, _| 1);
    assert_eq!(offered, vec!["hi".to_string()]);
    assert_eq!(walker.query_options, vec![hi]);
    walker.choose_phrase(&mut g, 0);
    assert_eq!(walker.query, Some(hi));
    assert!(!walker.person.youtalk);
    assert_eq!(g.phrases[0].responses.len(), 2);
}

#[test]
fn walker_offers_at_most_four_distinct_replies() {
    let mut g = Database::new();
    let mut chat = Chat::new(&g, true, None);
    let who = GeneralPerson::new(None, true);
    let mut targets = Vec::new();
    for t in ["a", "b", "c", "d", "e", "f"] {
        targets.push(g.insert_texts_at(t, vec![t.to_string()]).unwrap());
    }
    for &t in &targets {
        g.insert_responses_to(0, vec![(t, who), (t, who)]);
    }
    let offered = chat.get_phrases(&g, |_, _| 3);
    assert_eq!(offered.len(), 4);
    let mut seen = chat.query_options.clone();
    seen.sort();
    seen.dedup();
    assert_eq!(seen.len(), 4);
    for (k, &t) in chat.query_options.iter().enumerate() {
        assert!(targets.contains(&t));
        assert_eq!(g.phrases[t].texts[0], offered[k]);
    }
}

#[test]
fn zero_weights_offer_nothing() {
    let mut g = Database::new();
    let mut chat = Chat::new(&g, true, None);
    chat.add_phrase(&mut g, "hello");
    let mut fresh = Chat::new(&g, true, None);
    assert!(fresh.get_phrases(&g, |_, _| 0).is_empty());
    assert!(fresh.query_options.is_empty());
    let mut at_leaf = chat.clone();
    assert!(at_leaf.get_phrases(&g, |_, _| 1).is_empty());
}

#[test]
fn only_positive_targets_are_offered() {
    let mut g = Database::new();
    let mut chat = Chat::new(&g, true, None);
    let yes = GeneralPerson::new(None, true);
    let no = GeneralPerson::new(None, false);
    let a = g.insert_texts_at("a", vec!["a".to_string()]).unwrap();
    let b = g.insert_texts_at("b", vec!["b".to_string()]).unwrap();
    g.insert_responses_to(0, vec![(a, yes), (b, no)]);
    for _ in 0..20 {
        let offered = chat.get_phrases(&g, |speaker, _| if speaker.youtalk { 5 } else { 0 });
        assert_eq!(offered, vec!["a".to_string()]);
    }
}

#[test]
fn pick_weighted_follows_the_buckets() {
    let w = vec![0u128, 3, 0, 2];
    assert_eq!(pick_weighted(&w, 0), 1);
    assert_eq!(pick_weighted(&w, 2), 1);
    assert_eq!(pick_weighted(&w, 3), 3);
    assert_eq!(pick_weighted(&w, 4), 3);
}

#[test]
fn grouping_sums_by_target() {
    let p = GeneralPerson::new(None, true);
    let (targets, sums) = group_by_target(&vec![(5, p), (7, p), (5, p)], &vec![1, 2, 3]);
    assert_eq!(targets, vec![5, 7]);
    assert_eq!(sums, vec![4, 2]);
}

#[test]
fn add_phrase_records_the_turn() {
    let mut g = Database::new();
    g.updated("peer");
    let speaker = GeneralPerson::new(Some(farmer()), false);
    let mut chat = Chat::new(&g, false, Some(farmer()));
    chat.add_phrase(&mut g, "Where to?");
    let i = chat.query.unwrap();
    assert_eq!(g.phrases[0].responses, vec![(i, speaker)]);
    assert_eq!(g.phrases[i].texts, vec!["Where to?".to_string()]);
    assert!(chat.person.youtalk);
    chat.add_phrase(&mut g, "where to");
    assert_eq!(chat.query, Some(i));
    assert_eq!(g.phrases[i].responses.len(), 1);
    assert_eq!(g.phrases[i].texts.len(), 2);
}
