use std::collections::BTreeMap;

use familiar::memory::ambient::{self, Ranked};
use familiar::memory::dream;
use familiar::memory::ledger::Ledger;
use familiar::memory::note::{
    append_under_heading, first_sentence, forget_line, merge_lines, note_for, prose, remove_exact,
    restamp_line, sanitize,
};
use familiar::memory::observation::{Kind, Observation};
use familiar::memory::{
    self, carry_counts, carry_out, observations_in, present, recalled, salient, touched, Hit,
    Linked, MemoryError, Passage, Recalled, Saved, FOLDER, HEADING, TAG,
};
use familiar::time::Stamp;

fn at(text: &str) -> Stamp {
    let when = chrono::DateTime::parse_from_rfc3339(text).expect("date");
    Stamp { seconds: when.timestamp(), nanos: when.timestamp_subsec_nanos() }
}

fn now() -> Stamp {
    at("2026-08-01T09:00:00Z")
}

/// What an observation is worth: its kind's weight, halved every half life, and
/// raised by the logarithm of its uses.
fn score(observation: &Observation, uses: u32, now: Stamp) -> f32 {
    let decay = match observation.age_days(now) {
        Some(age) => 0.5f32.powf(age as f32 / observation.kind.half_life_days() as f32),
        None => 1.0,
    };
    observation.kind.weight() as f32 / 10.0 * decay * (1.0 + (uses as f32).ln_1p())
}

/// A vault held in memory: notes by path, and what is known of their lines.
struct Memory {
    notes: BTreeMap<String, String>,
    ledger: Ledger,
}

fn vault() -> Memory {
    Memory { notes: BTreeMap::new(), ledger: Ledger::new() }
}

/// A note's title: its file name.
fn title(path: &str) -> String {
    path.rsplit('/').next().unwrap_or("").trim_end_matches(".md").to_string()
}

impl Memory {
    fn put(&mut self, path: &str, text: impl AsRef<str>) {
        self.notes.insert(path.to_string(), text.as_ref().to_string());
        self.rescan();
    }

    fn has(&self, path: &str) -> bool {
        self.notes.contains_key(path)
    }

    fn passages(&self) -> Vec<Passage> {
        self.notes
            .iter()
            .map(|(path, text)| Passage { id: path.clone(), title: title(path), text: text.clone() })
            .collect()
    }

    fn observations(&self) -> Vec<Observation> {
        observations_in(&self.passages())
    }

    fn rescan(&mut self) {
        let keys = present(&self.observations());
        self.ledger.retain(&keys);
    }

    fn ledger(&self) -> &Ledger {
        &self.ledger
    }

    fn resolve(&self, subject: &str) -> Option<String> {
        self.notes.keys().find(|path| title(path) == subject.trim()).cloned()
    }

    fn remember(
        &mut self,
        subject: &str,
        text: &str,
        kind: Kind,
        related_to: Option<&str>,
        now: Stamp,
    ) -> Result<Saved, MemoryError> {
        let path = note_for(subject, self.resolve(subject).as_deref());
        let existing = self.notes.get(&path).map(String::as_str);
        let (saved, write) = memory::remember(
            &self.observations(),
            &path,
            existing,
            subject,
            text,
            kind,
            related_to,
            now,
        )?;
        if let Some(text) = write {
            self.put(&path, text);
        }
        Ok(saved)
    }

    fn forget(&mut self, subject: &str, matching: &str) -> Result<String, MemoryError> {
        let path = self.resolve(subject);
        let existing = path.as_ref().and_then(|path| self.notes.get(path));
        let (text, removed) = memory::forget(subject, existing.map(String::as_str), matching)?;
        self.put(&path.expect("a note"), text);
        Ok(removed)
    }

    /// The notes that hold a word.
    fn recall(&mut self, query: &str, now: Stamp) -> Vec<Recalled> {
        let wanted = query.trim().to_lowercase();
        let hits: Vec<Hit> = self
            .passages()
            .into_iter()
            .filter(|note| {
                note.title.to_lowercase().contains(&wanted)
                    || note.text.to_lowercase().contains(&wanted)
            })
            .enumerate()
            .map(|(rank, note)| Hit { note, lexical: Some(rank), semantic: None })
            .collect();
        let found = memory::recall(query, &hits);
        let paths = found.iter().map(|hit| hit.path.clone()).collect();
        let keys = touched(&self.observations(), &paths);
        self.ledger.used(&keys, now);
        found
    }

    fn held(&self) -> Vec<dream::Held> {
        memory::held(&self.observations(), &self.ledger, &vec![])
    }

    fn ranked(&self, now: Stamp) -> (Vec<Ranked>, Vec<Ranked>) {
        let observations = self.observations();
        let scores: Vec<u32> = observations
            .iter()
            .map(|held| score(held, self.ledger.uses(&held.key()), now).to_bits())
            .collect();
        memory::ranked(&observations, &scores)
    }

    fn ambient(&self, now: Stamp) -> Option<String> {
        let (first, rest) = self.ranked(now);
        ambient::compose(&first, &rest, &self.salient(ambient::BACKGROUND_LINES))
    }

    fn salient(&self, limit: usize) -> Vec<(String, String)> {
        let linked: Vec<Linked> = self
            .passages()
            .iter()
            .map(|note| Linked {
                links: self
                    .notes
                    .values()
                    .filter(|text| text.contains(&format!("[[{}]]", note.title)))
                    .count() as u32,
                title: note.title.clone(),
                excerpt: prose(&note.text),
            })
            .collect();
        salient(&linked, limit)
    }

    fn dream(&mut self, plan: &dream::Plan, now: Stamp) -> dream::Applied {
        let mut applied = dream::Applied::default();
        for operation in &plan.operations {
            let path = match operation {
                dream::Operation::Drop { note, .. }
                | dream::Operation::Merge { note, .. }
                | dream::Operation::Reclassify { note, .. } => note.clone(),
            };
            let written = self
                .notes
                .get(&path)
                .and_then(|existing| carry_out(existing, operation, now));
            let done = written.is_some();
            if let Some(text) = written {
                carry_counts(&mut self.ledger, operation);
                self.put(&path, text);
            }
            applied.settle(operation, done, now);
        }
        applied
    }
}

/// A note at the path the test put it: one *you* wrote.
fn read(memory: &Memory, name: &str) -> String {
    memory.notes.get(name).expect("the note").clone()
}

/// A note the assistant had to create, which lands under its own folder.
fn read_own(memory: &Memory, name: &str) -> String {
    read(memory, &format!("{FOLDER}/{name}"))
}

fn recall(memory: &mut Memory, query: &str) -> Vec<Recalled> {
    memory.recall(query, now())
}

fn tonight() -> Stamp {
    at("2026-08-02T03:00:00Z")
}

/// Everything held, with nothing having been used or mentioned: the state the
/// dream is most willing to act on.
fn held(memory: &Memory) -> Vec<dream::Held> {
    memory.held()
}

fn note(memory: &mut Memory, subject: &str, text: &str) -> String {
    memory
        .remember(subject, text, Kind::Fact, None, now())
        .expect("remember")
        .note
}

#[test]
fn remembering_writes_a_note_a_person_can_read() {
    let mut memory = vault();
    note(&mut memory, "Matthew", "writes Rust for GNOME apps");

    let note = read_own(&memory, "Matthew.md");
    assert!(note.contains("# Matthew"), "{note}");
    assert!(note.contains(HEADING), "{note}");
    assert!(note.contains("- writes Rust for GNOME apps"), "{note}");
    assert!(note.contains(TAG), "{note}");
}

#[test]
fn a_note_you_wrote_keeps_everything_that_was_in_it() {
    let mut memory = vault();
    memory.put(
        "Rust.md",
        "---\ntags: [learning]\n---\n\n# Rust\n\nMoves are destructive.\n",
    );
    memory.rescan();

    note(
        &mut memory,
        "Rust",
        "Matthew is learning the borrow checker",
    );

    let note = read(&memory, "Rust.md");
    assert!(note.contains("tags: [learning]"), "{note}");
    assert!(note.contains("Moves are destructive."), "{note}");
    assert!(note.contains("- Matthew is learning"), "{note}");
}

#[test]
fn a_note_you_already_have_is_joined_not_duplicated() {
    // The order in `resolve_or_new` is the whole point: a vault holding
    // People/Matthew.md must get the observation *there*, not in a rival
    // copy under Familiar/ that neither of you would think to reconcile.
    let mut memory = vault();
    memory.put(
        "People/Matthew.md",
        "# Matthew\n\nMy own notes about him.\n",
    );
    memory.rescan();

    let path = note(&mut memory, "Matthew", "writes Rust for GNOME");

    assert_eq!(path, "People/Matthew.md", "it started a second note");
    assert!(!memory.has("Familiar/Matthew.md"));
    let note = read(&memory, "People/Matthew.md");
    assert!(note.contains("My own notes about him."), "{note}");
    assert!(note.contains("writes Rust for GNOME"), "{note}");
}

#[test]
fn a_subject_with_no_note_anywhere_gets_one_in_familiars_folder() {
    // And the root stays yours: a few weeks of use should not leave it
    // littered with files only the assistant has ever touched.
    let mut memory = vault();
    let path = note(&mut memory, "Kubernetes", "is not used here");

    assert_eq!(path, "Familiar/Kubernetes.md");
    assert!(!memory.has("Kubernetes.md"));
}

#[test]
fn the_same_fact_saved_twice_is_saved_once() {
    // A fact that comes up again three weeks later is the commonest way a
    // memory silently doubles, and by the time the model reads it back the
    // duplicate is indistinguishable from corroboration.
    let mut memory = vault();
    note(&mut memory, "Matthew", "Prefers small commits.");
    let again = memory
        .remember(
            "Matthew",
            "prefers small commits",
            Kind::Preference,
            None,
            now(),
        )
        .expect("remember");

    assert!(again.already_there);
    let note = read_own(&memory, "Matthew.md");
    assert_eq!(note.matches("refers small commits").count(), 1, "{note}");
}

#[test]
fn recall_still_reaches_outside_the_folder() {
    // Writes are scoped; reads never were. A note the user filed anywhere
    // is still findable.
    let mut memory = vault();
    memory.put(
        "Projects/Cogsworth.md",
        "# Cogsworth\n\nThe WebSocket transport lives here.\n",
    );
    memory.rescan();

    let found = recall(&mut memory, "Cogsworth");
    assert_eq!(found.len(), 1, "{found:?}");
    assert_eq!(found[0].path, "Projects/Cogsworth.md");
}

#[test]
fn observations_gather_under_one_heading() {
    let mut memory = vault();
    note(&mut memory, "Matthew", "writes Rust");
    note(&mut memory, "Matthew", "prefers GNOME");

    let note = read_own(&memory, "Matthew.md");
    assert_eq!(note.matches(HEADING).count(), 1, "{note}");
    let rust = note.find("writes Rust").expect("one");
    let gnome = note.find("prefers GNOME").expect("two");
    assert!(rust < gnome, "newer observations go last: {note}");
}

#[test]
fn an_observation_lands_under_the_heading_not_at_the_end_of_the_file() {
    let mut memory = vault();
    memory.put(
        "Rust.md",
        format!("# Rust\n\n{HEADING}\n- old thing {TAG}\n\n## Reading list\n\n- the book\n"),
    );
    memory.rescan();

    note(&mut memory, "Rust", "a new thing");

    let note = read(&memory, "Rust.md");
    let new = note.find("a new thing").expect("the observation");
    let reading = note.find("## Reading list").expect("the other section");
    assert!(new < reading, "it landed in the wrong section:\n{note}");
    assert!(note.contains("- the book"), "{note}");
}

#[test]
fn forget_removes_only_what_familiar_wrote() {
    let mut memory = vault();
    memory.put(
        "Rust.md",
        "# Rust\n\n- a note you wrote yourself\n",
    );
    memory.rescan();
    note(&mut memory, "Rust", "something to drop");

    memory.forget("Rust", "something to drop").expect("forget");

    let note = read(&memory, "Rust.md");
    assert!(note.contains("- a note you wrote yourself"), "{note}");
    assert!(!note.contains("something to drop"), "{note}");
}

#[test]
fn forget_will_not_touch_a_line_it_did_not_write() {
    let mut memory = vault();
    memory.put(
        "Rust.md",
        "# Rust\n\n- moves are destructive\n",
    );
    memory.rescan();

    let refused = memory.forget("Rust", "moves are destructive");
    assert!(matches!(refused, Err(MemoryError::Refused(_))));
    assert!(read(&memory, "Rust.md").contains("- moves are destructive"));
}

#[test]
fn forgetting_everything_leaves_the_note_behind() {
    let mut memory = vault();
    note(&mut memory, "Rust", "the only thing");
    memory.forget("Rust", "the only thing").expect("forget");

    // Your file, not Familiar's, even when Familiar made it.
    assert!(memory.has("Familiar/Rust.md"));
}

#[test]
fn a_hit_says_whether_the_words_were_there_or_only_the_meaning() {
    // A caller that cannot tell the two apart has to treat every hit the
    // same, which is exactly what makes a purely semantic near-miss read as
    // a confident answer.
    let mut memory = vault();
    note(
        &mut memory,
        "Cogsworth",
        "The WebSocket transport lives here.",
    );

    let found = recall(&mut memory, "Cogsworth");
    let hit = found.first().expect("a hit");
    assert!(hit.lexical, "{hit:?}");
    // No vectors were supplied, so nothing can have come from that half.
    assert!(!hit.semantic, "{hit:?}");
}

#[test]
fn recall_reports_observations_rather_than_familiars_own_heading() {
    // The model reads whatever comes back as fact. Handing it the section
    // heading produced "a note that he was noted by Familiar".
    let mut memory = vault();
    note(&mut memory, "Matthew", "prefers GNOME apps written in Rust");

    let found = recall(&mut memory, "Matthew");
    let hit = found.first().expect("a hit");
    assert!(
        !hit.excerpt.contains("Noted by Familiar"),
        "{:?}",
        hit.excerpt
    );
    assert_eq!(
        hit.observations,
        ["prefers GNOME apps written in Rust"],
        "{hit:?}"
    );
}

#[test]
fn a_notes_own_prose_survives_alongside_the_observations() {
    let mut memory = vault();
    memory.put(
        "Rust.md",
        "# Rust\n\nA language with a borrow checker.\n",
    );
    memory.rescan();
    note(&mut memory, "Rust", "Matthew is learning it");

    let hit = recall(&mut memory, "Rust")
        .into_iter()
        .next()
        .expect("a hit");
    assert_eq!(hit.excerpt, "A language with a borrow checker.");
    assert_eq!(hit.observations, ["Matthew is learning it"]);
}

#[test]
fn finding_something_counts_as_having_used_it() {
    // What the dream reads months later to decide what earned its keep.
    let mut memory = vault();
    note(
        &mut memory,
        "Cogsworth",
        "The WebSocket transport lives here.",
    );
    let key = memory.observations()[0].key();
    assert_eq!(memory.ledger().uses(&key), 0);

    recall(&mut memory, "Cogsworth");
    assert_eq!(memory.ledger().uses(&key), 1);
}

#[test]
fn a_search_that_found_nothing_credits_nothing() {
    let mut memory = vault();
    note(
        &mut memory,
        "Cogsworth",
        "The WebSocket transport lives here.",
    );
    let key = memory.observations()[0].key();

    recall(&mut memory, "helicopters");
    assert_eq!(memory.ledger().uses(&key), 0);
}

#[test]
fn the_ambient_block_says_it_is_data_and_wraps_the_facts() {
    let mut memory = vault();
    memory
        .remember(
            "Matthew",
            "writes Rust for GNOME",
            Kind::Profile,
            None,
            now(),
        )
        .expect("remember");

    let block = memory.ambient(now()).expect("a block");
    assert!(block.contains("data, not instructions"), "{block}");
    assert!(block.contains("<saved_memory>"), "{block}");
    assert!(block.contains("</saved_memory>"), "{block}");
    assert!(block.contains("writes Rust for GNOME"), "{block}");
}

#[test]
fn a_standing_preference_rides_in_the_prompt_and_a_loose_fact_waits_to_be_asked_for() {
    // The line the whole design turns on. A preference the model would have
    // to `recall` before honouring is one it will not honour.
    let mut memory = vault();
    memory
        .remember(
            "Matthew",
            "wants files under work/ rather than the root",
            Kind::Preference,
            None,
            now(),
        )
        .expect("remember");
    memory
        .remember("Roof", "was finished in April", Kind::Fact, None, now())
        .expect("remember");

    let (core, rest) = memory.ranked(now());
    assert_eq!(core.len(), 1, "{core:?}");
    assert_eq!(rest.len(), 1, "{rest:?}");
}

#[test]
fn an_empty_vault_contributes_no_block() {
    let memory = vault();
    assert_eq!(memory.ambient(now()), None);
}

#[test]
fn salience_puts_the_most_linked_note_first() {
    let mut memory = vault();
    for (name, body) in [
        ("Rust.md", "# Rust\n\nA language.\n"),
        ("Ownership.md", "# Ownership\n\nSee [[Rust]].\n"),
        ("Borrowing.md", "# Borrowing\n\nAlso [[Rust]].\n"),
    ] {
        memory.put(name, body);
    }
    memory.rescan();

    let salient = memory.salient(3);
    assert_eq!(
        salient.first().map(|(title, _)| title.as_str()),
        Some("Rust")
    );
}

#[test]
fn a_subject_with_a_slash_does_not_become_a_folder() {
    let mut memory = vault();
    note(&mut memory, "GTK/GNOME", "is a stack");
    // Under the folder, and still one file rather than a nested directory.
    assert!(memory.has("Familiar/GTK-GNOME.md"));
}

#[test]
fn an_observation_needs_both_a_subject_and_something_to_say() {
    let mut memory = vault();
    assert!(memory
        .remember("", "something", Kind::Fact, None, now())
        .is_err());
    assert!(memory
        .remember("Something", "  ", Kind::Fact, None, now())
        .is_err());
}

#[test]
fn a_line_a_person_deleted_by_hand_stops_being_counted() {
    // The ledger keys into the vault; the vault is the truth. Otherwise the
    // file grows for ever with counts for sentences nobody can see.
    let mut memory = vault();
    note(
        &mut memory,
        "Cogsworth",
        "The WebSocket transport lives here.",
    );
    recall(&mut memory, "Cogsworth");
    assert_eq!(memory.ledger().len(), 1);

    memory.put(
        "Familiar/Cogsworth.md",
        "# Cogsworth\n",
    );
    memory.rescan();
    assert_eq!(memory.ledger().len(), 0);
}

#[test]
fn a_dream_drops_the_line_it_named_and_leaves_its_neighbours() {
    let mut memory = vault();
    note(&mut memory, "Roof", "was finished in April");
    note(&mut memory, "Roof", "cost 13,850 in the end");

    let corpus = held(&memory);
    let plan = dream::Plan {
        operations: vec![dream::Operation::Drop {
            key: corpus[0].key(),
            note: "Familiar/Roof.md".into(),
            subject: "Roof".into(),
            text: "was finished in April".into(),
            why: dream::Why::Stale,
        }],
    };
    let applied = memory.dream(&plan, tonight());

    assert_eq!(applied.dropped.len(), 1);
    assert_eq!(applied.failed, 0);
    let note = read_own(&memory, "Roof.md");
    assert!(!note.contains("was finished in April"), "{note}");
    assert!(note.contains("cost 13,850 in the end"), "{note}");
}

#[test]
fn a_dream_cannot_touch_a_line_it_did_not_write() {
    // The rule the whole subsystem rests on, at the one place where text is
    // removed unsupervised. A plan naming a sentence of the user's own
    // fails rather than acting.
    let mut memory = vault();
    memory.put(
        "Rust.md",
        "# Rust\n\n- moves are destructive\n",
    );
    memory.rescan();

    let plan = dream::Plan {
        operations: vec![dream::Operation::Drop {
            key: "Rust.md\u{1f}moves are destructive".into(),
            note: "Rust.md".into(),
            subject: "Rust".into(),
            text: "moves are destructive".into(),
            why: dream::Why::Trivial,
        }],
    };
    let applied = memory.dream(&plan, tonight());

    assert_eq!(applied.failed, 1);
    assert!(applied.dropped.is_empty());
    assert!(read(&memory, "Rust.md").contains("- moves are destructive"));
}

#[test]
fn a_merge_writes_the_replacement_before_taking_the_originals_out() {
    let mut memory = vault();
    note(&mut memory, "Roof", "was finished in April");
    note(&mut memory, "Roof", "cost 13,850 in the end");

    let corpus = held(&memory);
    let plan = dream::Plan {
        operations: vec![dream::Operation::Merge {
            note: "Familiar/Roof.md".into(),
            subject: "Roof".into(),
            kind: Kind::Fact,
            into: "The roof was finished in April 2026 and cost 13,850.".into(),
            keys: corpus.iter().map(dream::Held::key).collect(),
            texts: corpus
                .iter()
                .map(|item| item.observation.text.clone())
                .collect(),
        }],
    };
    let applied = memory.dream(&plan, tonight());

    assert_eq!(applied.merged, 1);
    let note = read_own(&memory, "Roof.md");
    assert!(
        note.contains("finished in April 2026 and cost 13,850"),
        "{note}"
    );
    assert!(!note.contains("- was finished in April "), "{note}");
    assert_eq!(
        memory.observations().len(),
        1,
        "{:?}",
        memory.observations()
    );
}

#[test]
fn a_merge_carries_the_uses_of_what_it_replaced() {
    // Throwing the counts away would make a merged memory look brand new
    // and unwanted, which is how the next night comes to drop it.
    let mut memory = vault();
    note(&mut memory, "Roof", "was finished in April");
    note(&mut memory, "Roof", "cost 13,850 in the end");
    recall(&mut memory, "Roof");

    let corpus = held(&memory);
    let plan = dream::Plan {
        operations: vec![dream::Operation::Merge {
            note: "Familiar/Roof.md".into(),
            subject: "Roof".into(),
            kind: Kind::Fact,
            into: "The roof was finished in April 2026 and cost 13,850.".into(),
            keys: corpus.iter().map(dream::Held::key).collect(),
            texts: corpus
                .iter()
                .map(|item| item.observation.text.clone())
                .collect(),
        }],
    };
    memory.dream(&plan, tonight());

    let survivor = &memory.observations()[0];
    assert!(memory.ledger().uses(&survivor.key()) >= 2);
}

#[test]
fn refiling_a_line_changes_its_kind_and_nothing_else() {
    let mut memory = vault();
    note(&mut memory, "Matthew", "wants metric only, never imperial");
    let corpus = held(&memory);

    let plan = dream::Plan {
        operations: vec![dream::Operation::Reclassify {
            key: corpus[0].key(),
            note: "Familiar/Matthew.md".into(),
            subject: "Matthew".into(),
            text: "wants metric only, never imperial".into(),
            from: Kind::Fact,
            to: Kind::Preference,
        }],
    };
    let applied = memory.dream(&plan, tonight());

    assert_eq!(applied.reclassified, 1);
    assert!(applied.dropped.is_empty());
    let refiled = &memory.observations()[0];
    assert_eq!(refiled.kind, Kind::Preference);
    assert_eq!(refiled.text, "wants metric only, never imperial");
    // And it is now in the half of the block that rides in every prompt.
    assert_eq!(memory.ranked(tonight()).0.len(), 1);
    assert!(read_own(&memory, "Matthew.md").contains("preference"));
}

#[test]
fn an_operation_over_a_note_that_has_changed_is_counted_and_stepped_over() {
    // The vault is the truth. A plan computed an hour ago against a note
    // since edited must not take the rest of the night down with it.
    let mut memory = vault();
    note(&mut memory, "Roof", "was finished in April");
    let plan = dream::Plan {
        operations: vec![
            dream::Operation::Drop {
                key: "Familiar/Gone.md\u{1f}nothing".into(),
                note: "Familiar/Gone.md".into(),
                subject: "Gone".into(),
                text: "nothing".into(),
                why: dream::Why::Stale,
            },
            dream::Operation::Drop {
                key: memory.observations()[0].key(),
                note: "Familiar/Roof.md".into(),
                subject: "Roof".into(),
                text: "was finished in April".into(),
                why: dream::Why::Stale,
            },
        ],
    };
    let applied = memory.dream(&plan, tonight());
    assert_eq!(applied.failed, 1);
    assert_eq!(applied.dropped.len(), 1);
}

#[test]
fn a_dream_that_did_nothing_reports_nothing() {
    let mut memory = vault();
    note(&mut memory, "Roof", "was finished in April");
    assert!(memory.dream(&dream::Plan::default(), tonight()).is_quiet());
}

#[test]
fn every_observation_in_the_vault_is_parsed_once_per_scan() {
    let mut memory = vault();
    note(&mut memory, "Matthew", "writes Rust");
    note(&mut memory, "Rust", "has a borrow checker");
    let held: Vec<String> = memory
        .observations()
        .into_iter()
        .map(|held| held.text)
        .collect();
    assert_eq!(held.len(), 2, "{held:?}");
}

#[test]
fn a_relation_is_a_wikilink_not_a_second_format() {
    let mut memory = vault();
    memory
        .remember("Familiar", "is built on GTK", Kind::Fact, Some("Brain"), now())
        .expect("remember");
    let note = read_own(&memory, "Familiar.md");
    assert!(note.contains("[[Brain]]"), "{note}");
    assert!(note.contains("— see [[Brain]] #familiar"), "{note}");
}

#[test]
fn recall_of_nothing_finds_nothing() {
    let mut memory = vault();
    assert!(recall(&mut memory, "   ").is_empty());
    memory
        .remember("Familiar", "is built on GTK", Kind::Fact, None, now())
        .expect("remember");
    assert!(recall(&mut memory, "   ").is_empty());
    assert_eq!(recall(&mut memory, "Familiar").len(), 1);
}

#[test]
fn a_night_before_the_first_note_has_nothing_to_forget() {
    let refused = vault().forget("Rust", "anything");
    assert_eq!(
        refused,
        Err(MemoryError::Refused("there is no note for Rust".to_string()))
    );
    assert_eq!(MemoryError::Vault("full".to_string()).describe(), "full");
    assert_eq!(MemoryError::Refused("no".to_string()).describe(), "no");
}

#[test]
fn a_line_goes_under_the_heading_and_everything_else_stays() {
    let note = "# Rust\n\nProse.\n";
    let once = append_under_heading(note, "- a #familiar");
    let twice = append_under_heading(&once, "- b #familiar");
    assert!(twice.starts_with("# Rust\n\nProse.\n"), "{twice}");
    let (left, removed) = forget_line(&twice, "b").expect("a line");
    assert_eq!(removed, "b");
    assert_eq!(left, once);
    assert_eq!(remove_exact(&twice, "a b"), None);
    assert!(remove_exact(&twice, "A!").is_some());
}

#[test]
fn a_merge_needs_every_line_it_replaces() {
    let note = append_under_heading("# Roof\n", "- one #familiar <!-- familiar fact 2026-01-01 -->");
    let texts = vec!["one".to_string(), "two".to_string()];
    assert_eq!(merge_lines(&note, &texts, "both", Kind::Fact, now()), None);
    let merged = merge_lines(&note, &vec!["one".to_string()], "both", Kind::Fact, now())
        .expect("merged");
    assert!(merged.contains("- both #familiar <!-- familiar fact 2026-08-01 -->"), "{merged}");
    assert!(!merged.contains("- one"), "{merged}");
    let refiled = restamp_line(&note, "one", Kind::Project).expect("refiled");
    assert!(refiled.contains("<!-- familiar project 2026-01-01 -->"), "{refiled}");
    assert_eq!(restamp_line(&note, "two", Kind::Project), None);
}

#[test]
fn the_prose_of_a_note_is_what_the_assistant_did_not_write() {
    let note = "---\ntags: [a]\n---\n\n# Rust\n\nA language. It is fast.\n\n## Noted by Familiar\n- x #familiar\n";
    assert!(!prose(note).contains("#familiar"));
    assert!(first_sentence("# Rust\n\nA language. It is fast.\n").starts_with("A language."));
    assert_eq!(sanitize("GTK/GNOME"), "GTK-GNOME");
    assert_eq!(note_for("Rust", Some("Notes/Rust.md")), "Notes/Rust.md");
    assert_eq!(note_for("Rust", None), "Familiar/Rust.md");
}

#[test]
fn a_sentence_with_a_relation_is_saved_once() {
    let mut memory = vault();
    let save = |memory: &mut Memory, related: Option<&str>| {
        memory
            .remember("Familiar", "is built on GTK", Kind::Fact, related, now())
            .expect("remember")
            .already_there
    };
    assert!(!save(&mut memory, Some("Brain")));
    let text = read_own(&memory, "Familiar.md");
    assert!(save(&mut memory, Some("Brain")));
    assert!(save(&mut memory, None));
    assert!(save(&mut memory, Some("Elsewhere")));
    assert_eq!(read_own(&memory, "Familiar.md"), text);
}

#[test]
fn a_search_says_which_half_of_it_came_to_a_note() {
    let note = Passage {
        id: "Familiar/Rust.md".into(),
        title: "Rust".into(),
        text: "# Rust\n\nA language. And more.\n\n## Noted by Familiar\n- moves #familiar\n".into(),
    };
    let meant = Hit { note: note.clone(), lexical: None, semantic: Some(3) };
    let both = Hit { note, lexical: Some(0), semantic: Some(0) };
    let found = memory::recall(" rust ", &[meant.clone(), both.clone()]);
    assert_eq!(found.len(), 2);
    assert!(!found[0].lexical && found[0].semantic, "{found:?}");
    assert!(found[1].lexical && found[1].semantic, "{found:?}");
    assert_eq!(found[0].observations, vec!["moves"]);
    assert_eq!(recalled(&both), found[1]);
    assert!(memory::recall("  ", &[meant]).is_empty());
}

#[test]
fn what_you_wrote_survives_a_refiled_line() {
    let text = "# Rust\n\nmine\n\n## Noted by Familiar\n- moves #familiar <!-- familiar fact 2026-01-02 -->\n";
    let refiled = restamp_line(text, "moves", Kind::Preference).expect("a line");
    assert_eq!(
        refiled,
        "# Rust\n\nmine\n\n## Noted by Familiar\n- moves #familiar <!-- familiar preference 2026-01-02 -->\n"
    );
}
