use std::cell::RefCell;
use std::collections::HashSet;
use std::iter::zip;

use chatgraph::chat::Chat;
use chatgraph::cloud::WordCloud;
use chatgraph::database::{Database, MergeError, SERVER};
use chatgraph::persona::{Character, GeneralPerson, Job, Person};
use rand::{Rng, SeedableRng};
use rand_chacha::ChaCha8Rng;

fn even(_speaker: GeneralPerson, _walker: GeneralPerson) -> u32 {
    1
}

fn initialize_chat(database: &mut Database, rng: &mut ChaCha8Rng) -> Chat {
    let job = [Job::Farmer, Job::Merchant, Job::Priest][rng.gen_range(0..3)];
    let hostile: i8 = rng.gen_range(-5..=5);
    let rebellious: i8 = rng.gen_range(-5..=5);
    let person = Person { job, character: Character { hostile, rebellious } };
    Chat::new(database, rng.gen_bool(0.5), Some(person))
}

fn generate_words(rng: &mut ChaCha8Rng) -> Vec<String> {
    let mut words = Vec::new();
    for _ in 0..20 {
        let word_length = rng.gen_range(2..=6);
        let mut word = String::new();
        for _ in 0..word_length {
            word.push(('a' as u8 + rng.gen_range(0..26) as u8) as char);
        }
        words.push(word);
    }
    words
}

fn generate_text(words: &Vec<String>, rng: &mut ChaCha8Rng) -> String {
    let mut text = String::new();
    let text_length = rng.gen_range(1..=4);
    for _ in 0..text_length {
        text += &words[rng.gen_range(0..words.len())];
        text += " ";
    }
    text
}

fn run_chat(client: &mut Database, rng: &mut ChaCha8Rng, words: &Vec<String>, chat_length: usize) {
    let mut chat = initialize_chat(client, rng);
    for _ in 0..chat_length {
        let phrases = chat.get_phrases(client, even);
        if rng.gen_bool(1.0 / (1.0 + phrases.len() as f64)) {
            chat.add_phrase(client, &generate_text(words, rng))
        } else {
            chat.choose_phrase(client, rng.gen_range(0..phrases.len()))
        }
    }
}

fn client_chat(client: &mut Database, rng: &mut ChaCha8Rng, words: &Vec<String>) -> Database {
    let mut chat = initialize_chat(client, rng);
    let chat_length = rng.gen_range(5..20);
    let walker_rng = RefCell::new(ChaCha8Rng::seed_from_u64(rng.gen()));

    for _ in 0..chat_length {
        let phrases = chat.get_phrases_with(client, even, |n| walker_rng.borrow_mut().gen_range(0..n));
        if rng.gen_bool(1.0 / (1.0 + phrases.len() as f64)) {
            chat.add_phrase(client, &generate_text(words, rng))
        } else {
            chat.choose_phrase(client, rng.gen_range(0..phrases.len()))
        }
    }

    client.difference(SERVER)
}

#[test]
fn test_data_test_database_merge_basic() {
    let mut server = Database::new();
    let mut client = Database::new();
    client.updated(SERVER);

    let mut rng = ChaCha8Rng::seed_from_u64(71);
    let words = generate_words(&mut rng);

    for _ in 0..3 {
        run_chat(&mut client, &mut rng, &words, 2);
        server.merge(client.difference(SERVER)).unwrap();
        client.updated(SERVER);
        assert_eq!(client, server);
    }
}

#[test]
fn test_database_test_database_merge_basic() {
    let mut server = Database::new();
    let mut client = Database::new();
    client.updated(SERVER);

    let mut rng = ChaCha8Rng::seed_from_u64(71);
    let words = generate_words(&mut rng);

    for _ in 0..10 {
        server.merge(client_chat(&mut client, &mut rng, &words)).unwrap();
        client.updated(SERVER);
        assert_eq!(client, server);
    }
}

#[test]
fn test_database_merge_concurrent() {
    let mut server = Database::new();

    let client_number = 5;
    let mut clients = vec![Database::new(); client_number];
    let ips: Vec<String> = (0..client_number).map(|x| x.to_string()).collect();
    let mut registered_ips = HashSet::new();

    let mut rng = ChaCha8Rng::seed_from_u64(71);
    let words = generate_words(&mut rng);

    for _ in 0..100 {
        let i = rng.gen_range(0..client_number);
        let ip = i.to_string();
        let client = &mut clients[i];

        if registered_ips.contains(&ip) {
            if rng.gen_range(0.0..1.0) < 0.25 {
                *client = Database::new();
                client.updated(SERVER);

                client.merge(server.total_clone()).unwrap();
                client.updated(SERVER);
                server.updated(&ip);
                assert_eq!(client, &mut server);
            }
        } else {
            registered_ips.insert(ip.clone());

            *client = Database::new();
            client.updated(SERVER);

            client.merge(server.total_clone()).unwrap();
            client.updated(SERVER);
            server.updated(&ip);
            assert_eq!(client, &mut server);
        }

        let difference = server.difference(&ip);
        server.merge(client_chat(client, &mut rng, &words)).unwrap();

        client.merge(difference).unwrap();
        client.updated(SERVER);
        server.updated(&ip);

        assert_eq!(client, &mut server);
    }

    for (ip, mut client) in zip(ips, clients) {
        client.merge(server.difference(&ip)).unwrap();
        client.updated(SERVER);
        server.updated(&ip);
        assert_eq!(client, server);
    }
}

#[test]
fn hello_reaches_the_server() {
    let mut server = Database::new();
    let mut client = Database::new();
    client.updated(SERVER);
    client.insert_texts_at("Hello!", vec!["Hello!".to_string()]);
    server.merge(client.difference(SERVER)).unwrap();
    assert_eq!(server.phrases.len(), 2);
    assert!(server.find_cloud(&WordCloud::new("")).is_some());
    assert!(server.find_cloud(&WordCloud::new("hello")).is_some());
    assert_eq!(server.phrases[1].texts, vec!["Hello!".to_string()]);
}

#[test]
fn two_clients_see_both_openers() {
    let mut server = Database::new();
    let mut a = Database::new();
    let mut b = Database::new();
    for (client, ip) in [(&mut a, "a"), (&mut b, "b")] {
        client.updated(SERVER);
        client.merge(server.total_clone()).unwrap();
        client.updated(SERVER);
        server.updated(ip);
    }
    let mut chat_a = Chat::new(&a, true, None);
    chat_a.add_phrase(&mut a, "Good morning");
    let mut chat_b = Chat::new(&b, true, None);
    chat_b.add_phrase(&mut b, "Well met");

    let sync = |server: &mut Database, client: &mut Database, ip: &str| {
        let d = server.difference(ip);
        server.merge(client.difference(SERVER)).unwrap();
        client.merge(d).unwrap();
        client.updated(SERVER);
        server.updated(ip);
    };
    sync(&mut server, &mut a, "a");
    assert_eq!(a, server);
    sync(&mut server, &mut b, "b");
    assert_eq!(b, server);
    sync(&mut server, &mut a, "a");
    assert_eq!(a, server);
    assert_eq!(a, b);

    for g in [&a, &b, &server] {
        let root = g.get_start_index();
        let good = g.find_cloud(&WordCloud::new("good morning")).unwrap();
        let well = g.find_cloud(&WordCloud::new("well met")).unwrap();
        let targets: Vec<usize> = g.phrases[root].responses.iter().map(|r| r.0).collect();
        assert!(targets.contains(&good));
        assert!(targets.contains(&well));
    }
}

#[test]
fn delta_after_update_is_the_sentinel() {
    let mut g = Database::new();
    g.updated("p");
    g.insert_texts_at("one", vec!["one".to_string()]);
    g.insert_texts_at("two", vec!["two".to_string()]);
    g.insert_responses_to(0, vec![(1, GeneralPerson::new(None, true))]);
    assert_eq!(g.difference("p").phrases.len(), 4);
    g.updated("p");
    let d = g.difference("p");
    assert_eq!(d.phrases.len(), 1);
    assert_eq!(d.phrases[0].texts, vec![String::new()]);
    assert!(d.phrases[0].responses.is_empty());
}

#[test]
fn unregistered_peer_gets_the_sentinel() {
    let mut g = Database::new();
    g.insert_texts_at("one", vec!["one".to_string()]);
    assert_eq!(g.difference("nobody").phrases.len(), 1);
}

#[test]
fn difference_ships_texts_and_identifiers() {
    let mut g = Database::new();
    let a = g.insert_texts_at("Hi there", vec!["Hi there".to_string()]).unwrap();
    g.updated("p");
    g.insert_texts_at("hi, there", vec!["hi, there".to_string()]);
    g.insert_responses_to(0, vec![(a, GeneralPerson::new(None, false))]);
    let d = g.difference("p");
    assert_eq!(d.phrases.len(), 3);
    assert_eq!(d.phrases[1].texts, vec!["hi, there".to_string()]);
    assert!(d.phrases[1].responses.is_empty());
    assert_eq!(d.phrases[2].texts, vec![String::new()]);
    assert_eq!(d.phrases[2].responses.len(), 1);
    let log = &d.manager.peers[0].1;
    assert_eq!(d.manager.peers.len(), 1);
    assert_eq!(d.manager.peers[0].0, SERVER);
    assert_eq!(log.texts, vec![(1, 0), (2, 1)]);
    assert_eq!(log.responses, vec![(2, 0)]);
}

#[test]
fn merge_rejects_a_graph_without_log() {
    let mut server = Database::new();
    let mut other = Database::new();
    other.insert_texts_at("x", vec!["x".to_string()]);
    let before = server.clone();
    assert_eq!(server.merge(other), Err(MergeError::MalformedDelta));
    assert_eq!(server, before);
    assert_eq!(server.phrases.len(), 1);
}

#[test]
fn merge_reports_an_unknown_target() {
    let mut client = Database::new();
    let y = client.insert_texts_at("why", vec!["why".to_string()]).unwrap();
    client.updated(SERVER);
    client.insert_responses_to(0, vec![(y, GeneralPerson::new(None, true))]);
    let mut server = Database::new();
    assert_eq!(server.merge(client.difference(SERVER)), Err(MergeError::UnresolvedPhrase));
}

#[test]
fn merge_moves_targets_by_cloud() {
    let mut server = Database::new();
    server.insert_texts_at("zzz", vec!["zzz".to_string()]);
    let mut client = Database::new();
    client.updated(SERVER);
    let a = client.insert_texts_at("alpha", vec!["alpha".to_string()]).unwrap();
    let b = client.insert_texts_at("beta", vec!["beta".to_string()]).unwrap();
    let who = GeneralPerson::new(None, true);
    client.insert_responses_to(a, vec![(b, who)]);
    server.merge(client.difference(SERVER)).unwrap();
    let sa = server.find_cloud(&WordCloud::new("alpha")).unwrap();
    let sb = server.find_cloud(&WordCloud::new("beta")).unwrap();
    assert_eq!(sa, 2);
    assert_eq!(sb, 3);
    assert_eq!(server.phrases[sa].responses, vec![(sb, who)]);
}

#[test]
fn total_clone_makes_an_equal_client() {
    let mut server = Database::new();
    let mut rng = ChaCha8Rng::seed_from_u64(5);
    let words = generate_words(&mut rng);
    run_chat(&mut server, &mut rng, &words, 12);
    let mut client = Database::new();
    client.updated(SERVER);
    client.merge(server.total_clone()).unwrap();
    client.updated(SERVER);
    server.updated("c");
    assert_eq!(client, server);
}

#[test]
fn equality_ignores_the_order_of_phrases() {
    let mut a = Database::new();
    let mut b = Database::new();
    let who = GeneralPerson::new(None, true);
    let x = a.insert_texts_at("x", vec!["x".to_string()]).unwrap();
    let y = a.insert_texts_at("y", vec!["y".to_string(), "Y".to_string()]).unwrap();
    a.insert_responses_to(x, vec![(y, who), (x, who)]);
    let y2 = b.insert_texts_at("y", vec!["Y".to_string(), "y".to_string()]).unwrap();
    let x2 = b.insert_texts_at("x", vec!["x".to_string()]).unwrap();
    b.insert_responses_to(x2, vec![(x2, who), (y2, who)]);
    assert_eq!(a, b);
    b.insert_texts_at("x", vec!["again".to_string()]);
    assert_ne!(a, b);
}

#[test]
fn growth_never_shrinks() {
    let mut g = Database::new();
    g.updated("p");
    let mut sizes = Vec::new();
    let who = GeneralPerson::new(None, false);
    for text in ["a", "b", "a!", "c", "B"] {
        let i = g.insert_texts_at(text, vec![text.to_string()]).unwrap();
        g.insert_responses_to(0, vec![(i, who)]);
        let now: Vec<(usize, usize)> = g.phrases.iter().map(|p| (p.texts.len(), p.responses.len())).collect();
        if let Some(prev) = sizes.last() {
            let prev: &Vec<(usize, usize)> = prev;
            assert!(now.len() >= prev.len());
            for (n, p) in zip(now.iter(), prev.iter()) {
                assert!(n.0 >= p.0 && n.1 >= p.1);
            }
        }
        sizes.push(now);
    }
    assert_eq!(g.phrases.len(), 4);
    assert_eq!(g.phrases[1].texts, vec!["a".to_string(), "a!".to_string()]);
    assert_eq!(g.phrases[2].texts, vec!["b".to_string(), "B".to_string()]);
}

#[test]
fn default_is_new() {
    let d = Database::default();
    assert_eq!(d.phrases.len(), 1);
    assert_eq!(d.phrases[0].texts, vec![String::new()]);
    assert!(d.find_cloud(&WordCloud::new("")) == Some(0));
    assert_eq!(d, Database::new());
}

#[test]
fn seeded_draws_repeat() {
    let mut g = Database::new();
    let who = GeneralPerson::new(None, true);
    for t in ["a", "b", "c", "d", "e", "f", "g"] {
        let i = g.insert_texts_at(t, vec![t.to_string(), t.to_uppercase()]).unwrap();
        g.insert_responses_to(0, vec![(i, who)]);
    }
    let run = |seed: u64| {
        let rng = RefCell::new(ChaCha8Rng::seed_from_u64(seed));
        let mut chat = Chat::new(&g, true, None);
        let texts = chat.get_phrases_with(&g, even, |n| rng.borrow_mut().gen_range(0..n));
        (texts, chat.query_options)
    };
    let first = run(9);
    assert_eq!(first, run(9));
    assert_eq!(first.0.len(), 4);
}
