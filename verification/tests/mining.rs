use codeboss::compile::{expand_template, slot_counts, total_variations};
use codeboss::digest::{hash_commit, hash_to_hex};
use codeboss::envelope::build_commit_object;
use codeboss::expand::expand_to_strings;
use codeboss::candidate::{generate_message, scan_chunk};
use codeboss::mining::{
    keep_first, mine_thread, mine_vanity_hash, progress_due, MiningOutcome, MiningResult,
    ThreadOutcome, PROGRESS_INTERVAL,
};
use codeboss::worker::{Action, Hit, Phase, Worker, CHUNK_SIZE};
use codeboss::odometer::Odometer;
use codeboss::slot::Slot;
use codeboss::template::parse_template;

fn digest_of(header: &[u8], message: &[u8]) -> [u8; 20] {
    let mut object = format!("commit {}\0", header.len() + message.len() + 1).into_bytes();
    object.extend_from_slice(header);
    object.extend_from_slice(message);
    object.push(b'\n');
    hash_commit(&object)
}

fn prefix(digest: &[u8; 20]) -> u32 {
    u32::from_be_bytes([digest[0], digest[1], digest[2], digest[3]])
}

fn message_at(slots: &[Slot], k: u64) -> Vec<u8> {
    let mut odometer = Odometer::new(slot_counts(slots));
    odometer.set_position(k);
    let mut message = Vec::new();
    generate_message(slots, odometer.indices(), &mut message);
    message
}

fn binary_groups(n: usize) -> String {
    "{a|b}".repeat(n)
}

#[test]
fn message_takes_one_variation_per_slot() {
    let slots = vec![
        Slot::from_variations(vec![b"fix".to_vec(), b"Fix".to_vec()]),
        Slot::from_variations(vec![b": ".to_vec()]),
        Slot::from_variations(vec![b"bug".to_vec(), b"issue".to_vec(), b"".to_vec()]),
    ];
    let mut output = b"left over".to_vec();
    assert_eq!(generate_message(&slots, &[1, 0, 1], &mut output), 10);
    assert_eq!(output, b"Fix: issue".to_vec());
    assert_eq!(generate_message(&slots, &[0, 0, 2], &mut output), 5);
    assert_eq!(output, b"fix: ".to_vec());
    assert_eq!(generate_message(&[], &[], &mut output), 0);
    assert!(output.is_empty());
}

#[test]
fn first_slot_changes_fastest() {
    let slots = vec![
        Slot::from_variations(vec![b"a".to_vec(), b"b".to_vec()]),
        Slot::from_variations(vec![b"x".to_vec(), b"y".to_vec(), b"z".to_vec()]),
    ];
    let all: Vec<Vec<u8>> = (0..6).map(|k| message_at(&slots, k)).collect();
    let expected: Vec<Vec<u8>> =
        ["ax", "bx", "ay", "by", "az", "bz"].iter().map(|s| s.as_bytes().to_vec()).collect();
    assert_eq!(all, expected);
}

#[test]
fn finds_the_first_candidate() {
    let slots = expand_template("{a|b}").unwrap();
    let digest = digest_of(b"H", b"a");
    let outcome = mine_vanity_hash(&slots, b"H", prefix(&digest));
    assert_eq!(
        outcome,
        MiningOutcome::Found(MiningResult {
            message: b"a".to_vec(),
            hash: hash_to_hex(&digest),
            attempts: 1,
        })
    );
}

#[test]
fn finds_the_second_candidate() {
    let slots = expand_template("{a|b}").unwrap();
    let digest = digest_of(b"H", b"b");
    assert_ne!(prefix(&digest), prefix(&digest_of(b"H", b"a")));
    let outcome = mine_vanity_hash(&slots, b"H", prefix(&digest));
    assert_eq!(
        outcome,
        MiningOutcome::Found(MiningResult {
            message: b"b".to_vec(),
            hash: hash_to_hex(&digest),
            attempts: 2,
        })
    );
}

#[test]
fn exhausts_after_every_candidate() {
    let slots = expand_template("{a|b}").unwrap();
    let first = prefix(&digest_of(b"H", b"a"));
    let second = prefix(&digest_of(b"H", b"b"));
    let mut target = 0u32;
    while target == first || target == second {
        target += 1;
    }
    assert_eq!(mine_vanity_hash(&slots, b"H", target), MiningOutcome::Exhausted { attempts: 2 });
}

#[test]
fn single_worker_runs_agree() {
    let slots = expand_template("{fix|Fix}: {the|a} {bug|issue}").unwrap();
    let header = b"tree T\n\n";
    let target = prefix(&digest_of(header, b"Fix: the issue"));
    let first = mine_vanity_hash(&slots, header, target);
    let second = mine_vanity_hash(&slots, header, target);
    assert_eq!(first, second);
    match first {
        MiningOutcome::Found(result) => {
            assert_eq!(result.message, b"Fix: the issue".to_vec());
            assert_eq!(result.attempts, 6);
        }
        MiningOutcome::Exhausted { .. } => panic!("a match was expected"),
    }
}

#[test]
fn plain_template_is_one_candidate() {
    let slots = expand_template("only \\{this\\}").unwrap();
    let digest = digest_of(b"", b"only {this}");
    assert_eq!(
        mine_vanity_hash(&slots, b"", prefix(&digest)),
        MiningOutcome::Found(MiningResult {
            message: b"only {this}".to_vec(),
            hash: hash_to_hex(&digest),
            attempts: 1,
        })
    );
    assert_eq!(
        mine_vanity_hash(&slots, b"", !prefix(&digest)),
        MiningOutcome::Exhausted { attempts: 1 }
    );
}

#[test]
fn empty_template_is_the_empty_candidate() {
    let slots = expand_template("").unwrap();
    let digest = digest_of(b"H", b"");
    assert_eq!(
        mine_vanity_hash(&slots, b"H", prefix(&digest)),
        MiningOutcome::Found(MiningResult {
            message: Vec::new(),
            hash: hash_to_hex(&digest),
            attempts: 1,
        })
    );
}

#[test]
fn search_crosses_chunks() {
    let slots = expand_template(&binary_groups(21)).unwrap();
    assert_eq!(total_variations(&slots), 1 << 21);
    let wanted: u64 = CHUNK_SIZE + 4321;
    let message = message_at(&slots, wanted);
    let digest = digest_of(b"H", &message);
    match mine_vanity_hash(&slots, b"H", prefix(&digest)) {
        MiningOutcome::Found(result) => {
            assert_eq!(result.message, message);
            assert_eq!(result.hash, hash_to_hex(&digest));
            assert_eq!(result.attempts, wanted + 1);
        }
        MiningOutcome::Exhausted { .. } => panic!("a match was expected"),
    }
}

#[test]
fn scan_stops_at_the_first_match() {
    let slots = expand_template("{a|b|c|d}").unwrap();
    let mut odometer = Odometer::new(slot_counts(&slots));
    odometer.set_position(1);
    let mut message = Vec::new();
    let mut envelope = Vec::new();
    let digest = digest_of(b"H", b"c");
    let found =
        scan_chunk(&slots, b"H", prefix(&digest), &mut odometer, &mut message, &mut envelope, 3);
    assert_eq!(found, (Some(digest), 2));
    assert_eq!(message, b"c".to_vec());
    let mut expected = Vec::new();
    build_commit_object(b"H", b"c", &mut expected);
    assert_eq!(envelope, expected);
}

#[test]
fn scan_without_match_hashes_the_whole_chunk() {
    let slots = expand_template("{a|b|c|d}").unwrap();
    let mut odometer = Odometer::new(slot_counts(&slots));
    let mut message = Vec::new();
    let mut envelope = Vec::new();
    let target = prefix(&digest_of(b"H", b"d"));
    let found = scan_chunk(&slots, b"H", target, &mut odometer, &mut message, &mut envelope, 3);
    assert_eq!(found, (None, 3));
    assert_eq!(odometer.indices(), &[3]);
    let found = scan_chunk(&slots, b"H", target, &mut odometer, &mut message, &mut envelope, 0);
    assert_eq!(found, (None, 0));
}

#[test]
fn worker_walks_through_its_phases() {
    let slots = expand_template("{a|b|c}").unwrap();
    let digest = digest_of(b"H", b"b");
    let mut worker = Worker::new(&slots, b"H", prefix(&digest), 0, 2);
    assert_eq!(worker.phase(), Phase::Seeking);
    assert_eq!(worker.step(false), Action::Continue);
    assert_eq!(worker.phase(), Phase::Scanning);
    assert_eq!(worker.step(true), Action::Matched(Hit { message: b"b".to_vec(), digest }));
    assert_eq!(worker.phase(), Phase::Reporting);
    assert_eq!(worker.step(false), Action::Publish(2));
    assert_eq!(worker.phase(), Phase::Done);
    assert_eq!(worker.step(false), Action::Halt);
    assert_eq!(worker.phase(), Phase::Done);
}

#[test]
fn worker_without_match_publishes_its_chunk() {
    let slots = expand_template("{a|b|c}").unwrap();
    let wanted = [b"a", b"b", b"c"].map(|m| prefix(&digest_of(b"H", m)));
    let mut target = 7u32;
    while wanted.contains(&target) {
        target += 1;
    }
    let mut worker = Worker::new(&slots, b"H", target, 0, 1);
    assert_eq!(worker.step(false), Action::Continue);
    assert_eq!(worker.step(false), Action::Continue);
    assert_eq!(worker.phase(), Phase::Reporting);
    assert_eq!(worker.step(false), Action::Publish(3));
    assert_eq!(worker.phase(), Phase::Done);
    assert_eq!(worker.step(false), Action::Halt);
}

#[test]
fn worker_stops_when_told() {
    let slots = expand_template("{a|b|c}").unwrap();
    let mut worker = Worker::new(&slots, b"H", 0, 0, 4);
    assert_eq!(worker.phase(), Phase::Seeking);
    assert_eq!(worker.step(true), Action::Halt);
    assert_eq!(worker.phase(), Phase::Done);
    assert_eq!(worker.step(false), Action::Halt);
}

#[test]
fn worker_beyond_the_space_has_nothing_to_do() {
    let slots = expand_template("{a|b|c}").unwrap();
    let mut worker = Worker::new(&slots, b"H", 0, 1, 2);
    assert_eq!(worker.phase(), Phase::Done);
    assert_eq!(worker.step(false), Action::Halt);
    let target = prefix(&digest_of(b"H", b"a"));
    assert_eq!(
        mine_thread(&slots, b"H", target, 1, 2),
        ThreadOutcome { found: None, attempts: 0 }
    );
    assert_eq!(
        mine_thread(&slots, b"H", target, 0, 2),
        ThreadOutcome {
            found: Some(Hit { message: b"a".to_vec(), digest: digest_of(b"H", b"a") }),
            attempts: 1,
        }
    );
}

#[test]
fn workers_take_chunks_in_turn() {
    let slots = expand_template(&binary_groups(21)).unwrap();
    let in_second_chunk = message_at(&slots, CHUNK_SIZE + 10);
    let digest = digest_of(b"", &in_second_chunk);
    let mut worker = Worker::new(&slots, b"", prefix(&digest), 1, 2);
    assert_eq!(worker.phase(), Phase::Seeking);
    assert_eq!(worker.step(false), Action::Continue);
    assert_eq!(worker.step(false), Action::Matched(Hit { message: in_second_chunk, digest }));
    assert_eq!(worker.step(false), Action::Publish(11));
    assert_eq!(worker.step(false), Action::Halt);

    let in_third_chunk = message_at(&slots, 2 * CHUNK_SIZE + 5);
    let digest = digest_of(b"", &in_third_chunk);
    let outcome = mine_thread(&slots, b"", prefix(&digest), 0, 2);
    assert_eq!(outcome.found, Some(Hit { message: in_third_chunk, digest }));
    assert_eq!(outcome.attempts, CHUNK_SIZE + 6);
    let outcome = mine_thread(&slots, b"", prefix(&digest), 1, 2);
    assert_eq!(outcome, ThreadOutcome { found: None, attempts: CHUNK_SIZE });
}

#[test]
fn progress_is_due_after_each_interval() {
    assert_eq!(PROGRESS_INTERVAL, 100_000_000);
    assert!(progress_due(0, 100_000_000));
    assert!(progress_due(0, 100_999_999));
    assert!(!progress_due(0, 101_000_000));
    assert!(!progress_due(0, 99_999_999));
    assert!(progress_due(0, 300_000_123));
    assert!(!progress_due(1, 100_000_000));
    assert!(progress_due(0, 0));
}

#[test]
fn first_to_raise_the_flag_keeps_its_match() {
    let hit = || Hit { message: b"m".to_vec(), digest: [7u8; 20] };
    assert_eq!(keep_first(false, hit()), Some(hit()));
    assert_eq!(keep_first(true, hit()), None);
}

#[test]
fn workers_together_hash_each_candidate_once() {
    let slots = expand_template("{a|b}").unwrap();
    let first = prefix(&digest_of(b"H", b"a"));
    let second = prefix(&digest_of(b"H", b"b"));
    let mut target = 0u32;
    while target == first || target == second {
        target += 1;
    }
    let workers = 4;
    let mut attempts = 0;
    for thread_id in 0..workers {
        let outcome = mine_thread(&slots, b"H", target, thread_id, workers);
        assert_eq!(outcome.found, None);
        attempts += outcome.attempts;
    }
    assert!(attempts <= 2 * workers as u64);
    assert_eq!(attempts, 2);
}

#[test]
fn candidates_are_the_expansions_of_the_template() {
    let mut template = String::from("x");
    for size in [3usize, 4100, 2, 5] {
        template.push('{');
        for i in 0..size {
            if i > 0 {
                template.push('|');
            }
            template.push_str(&format!("{}", i));
        }
        template.push_str("}-");
    }
    let slots = expand_template(&template).unwrap();
    assert!(slots.len() > 1);
    let total = total_variations(&slots) as u64;
    assert_eq!(total, 3 * 4100 * 2 * 5);
    let mut candidates: Vec<Vec<u8>> = (0..total).map(|k| message_at(&slots, k)).collect();
    let mut expansions = expand_to_strings(&parse_template(&template).unwrap());
    assert_eq!(candidates.len(), expansions.len());
    assert_eq!(candidates[0], expansions[0]);
    candidates.sort();
    expansions.sort();
    assert_eq!(candidates, expansions);
}
