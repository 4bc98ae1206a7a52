use agent_memory::Episode;
use agent_memory::EpisodicMemory;
use agent_memory::MemoryStore;
use agent_memory::Message;

#[test]
fn test_episodic_memory_store_and_retrieve() {
    let mut store = MemoryStore::new();
    let episodic = EpisodicMemory::new("test-agent");

    let episode = Episode::new("User asked about Rust programming")
        .with_topics(vec!["rust".to_string(), "programming".to_string()])
        .with_importance(800);
    let episode_id = episode.id.clone();
    episodic.store_episode(&mut store, episode).unwrap();

    let retrieved = episodic.get_episode(&store, episode_id.as_str()).unwrap().unwrap();
    assert_eq!(retrieved.summary.as_str(), "User asked about Rust programming");
    assert_eq!(retrieved.topics.len(), 2);
    assert_eq!(retrieved.importance, 800);
}

#[test]
fn test_episodic_memory_recent_episodes() {
    let mut store = MemoryStore::new();
    let episodic = EpisodicMemory::new("test-agent");

    for i in 1..=5 {
        let mut episode = Episode::new(format!("Episode {}", i).as_str());
        episode.timestamp = 1_000_000 + i;
        episodic.store_episode(&mut store, episode).unwrap();
    }

    let recent = episodic.get_recent_episodes(&store, 3).unwrap();
    assert_eq!(recent.len(), 3);
    assert!(recent[0].summary.as_str().contains("Episode 5"));
}

#[test]
fn test_episodic_memory_find_by_topic() {
    let mut store = MemoryStore::new();
    let episodic = EpisodicMemory::new("test-agent");

    episodic
        .store_episode(&mut store, Episode::new("Discussed Rust").with_topics(vec!["rust".to_string()]))
        .unwrap();
    episodic
        .store_episode(&mut store, Episode::new("Talked about Python").with_topics(vec!["python".to_string()]))
        .unwrap();
    episodic
        .store_episode(
            &mut store,
            Episode::new("Rust performance")
                .with_topics(vec!["rust".to_string(), "performance".to_string()]),
        )
        .unwrap();

    let rust_episodes = episodic.find_by_topic(&store, "rust").unwrap();
    assert_eq!(rust_episodes.len(), 2);
}

#[test]
fn test_episodic_memory_context_summary() {
    let mut store = MemoryStore::new();
    let episodic = EpisodicMemory::new("test-agent");

    episodic.store_episode(&mut store, Episode::new("User asked about Rust")).unwrap();
    episodic.store_episode(&mut store, Episode::new("Discussed error handling")).unwrap();

    let summary = episodic.generate_context_summary(&store, 5).unwrap();
    assert!(summary.as_str().contains("Recent interaction history"));
    assert!(summary.as_str().contains("User asked about Rust"));
}

#[test]
fn lowest_ranked_episode_is_evicted_first() {
    let mut store = MemoryStore::new();
    let episodic = EpisodicMemory::new("test-agent").with_max_episodes(3);

    let importances = [900u32, 100, 500, 700];
    let mut victim_id = String::new();
    for (i, imp) in importances.iter().enumerate() {
        let mut e = Episode::new(format!("episode {}", i).as_str()).with_importance(*imp);
        e.timestamp = 1_000 + i as i64;
        if *imp == 100 {
            victim_id = e.id.clone();
        }
        episodic.store_episode(&mut store, e).unwrap();
    }

    assert_eq!(episodic.count(&store).unwrap(), 3);
    assert!(episodic.get_episode(&store, victim_id.as_str()).unwrap().is_none());
    assert_eq!(episodic.find_by_importance(&store, 500).unwrap().len(), 3);
}

#[test]
fn topic_extraction_matches_the_vocabulary() {
    let episodic = EpisodicMemory::new("a");
    let topics = episodic.extract_topics_from_text("We debated Rust API performance at length");
    let names: Vec<&str> = topics.iter().map(|s| s.as_str()).collect();
    assert_eq!(names, vec!["rust", "api", "performance"]);

    let many = episodic.extract_topics_from_text(
        "rust python javascript programming coding algorithm database",
    );
    assert_eq!(many.len(), 5);
}

#[test]
fn importance_heuristic_is_exact() {
    let episodic = EpisodicMemory::new("a");
    // base only
    assert_eq!(episodic.calculate_importance(1, "hello there"), 500);
    // flagged term adds a tenth
    assert_eq!(episodic.calculate_importance(1, "this is IMPORTANT"), 600);
    // more than five messages adds a tenth
    assert_eq!(episodic.calculate_importance(6, "hello"), 600);
    // everything together is capped at one
    let mut long_text = String::new();
    for _ in 0..600 {
        long_text.push_str("word ");
    }
    long_text.push_str("critical");
    assert_eq!(episodic.calculate_importance(11, long_text.as_str()), 1000);
}

#[test]
fn episode_from_messages_validates_and_extracts() {
    let episodic = EpisodicMemory::new("a");
    let empty: Vec<Message> = Vec::new();
    assert!(episodic.episode_from_messages(&empty, "whatever").is_err());

    let messages = vec![Message::user("tell me about rust"), Message::assistant("gladly")];
    let e = episodic
        .episode_from_messages(&messages, "We discussed rust debugging")
        .unwrap();
    assert_eq!(e.summary.as_str(), "We discussed rust debugging");
    let names: Vec<&str> = e.topics.iter().map(|s| s.as_str()).collect();
    assert_eq!(names, vec!["rust", "debugging"]);
    assert_eq!(e.importance, 500);
}

#[test]
fn insights_come_one_per_nonempty_line() {
    let episodic = EpisodicMemory::new("a");
    let insights = episodic.parse_insights("1. first insight\n\n- second insight\n   \n");
    let texts: Vec<&str> = insights.iter().map(|s| s.as_str()).collect();
    assert_eq!(texts, vec!["first insight", "second insight"]);
}
