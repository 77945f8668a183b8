//! Triage of threads and extraction of asks.

use mission_control::triage::{
    classify, extract_ask, extract_hard_ask, extract_offer, has_merge_language, triage,
    truncate_chars, Role, TriageInput, TriageState, MAX_ASK_LEN, STUB_LEN,
};

fn agent_input(text: &str) -> TriageInput<'_> {
    TriageInput {
        last_role: Some(Role::Agent),
        final_agent_text: text,
        final_agent_has_tool_use: false,
    }
}

struct Case {
    name: &'static str,
    input: TriageInput<'static>,
    expected_state: TriageState,
    expected_ask: Option<&'static str>,
}

#[test]
fn table_driven_triage() {
    let cases = vec![
        Case {
            name: "user spoke last means running",
            input: TriageInput {
                last_role: Some(Role::User),
                final_agent_text: "",
                final_agent_has_tool_use: false,
            },
            expected_state: TriageState::Running,
            expected_ask: None,
        },
        Case {
            name: "empty thread means running",
            input: TriageInput {
                last_role: None,
                final_agent_text: "",
                final_agent_has_tool_use: false,
            },
            expected_state: TriageState::Running,
            expected_ask: None,
        },
        Case {
            name: "final agent message with tool use is mid-work",
            input: TriageInput {
                last_role: Some(Role::Agent),
                final_agent_text: "Let me check the build output before continuing. \
                    I will run the tests next and report back with results.",
                final_agent_has_tool_use: true,
            },
            expected_state: TriageState::Running,
            expected_ask: None,
        },
        Case {
            name: "very short stub is mid-work",
            input: agent_input("Looking into it now."),
            expected_state: TriageState::Running,
            expected_ask: None,
        },
        Case {
            name: "wikipedia-style trailer with merge ask",
            input: agent_input(
                "What I set out to do: wire the connector regression into CI. \
                 What I did: added the workflow, fixed the flaky fixture, and got \
                 checks green on the branch. What is left: nothing on my side. \
                 What I need from you: merge PR #134",
            ),
            expected_state: TriageState::AwaitingMerge,
            expected_ask: Some("merge PR #134"),
        },
        Case {
            name: "trailer ask that is not about merging",
            input: agent_input(
                "All three suites pass locally and the fix is committed. \
                 What I need from you: decide whether we raise the turn limit to 50 \
                 or keep 40 and split the search into two passes.",
            ),
            expected_state: TriageState::NeedsYou,
            expected_ask: Some(
                "decide whether we raise the turn limit to 50 or keep 40 and split the search into two passes.",
            ),
        },
        Case {
            name: "question-style ask keeps the question text",
            input: agent_input(
                "The gauntlet failed twice on the same seed, which looks environmental \
                 rather than a real regression. Do you want me to re-run the gauntlet?",
            ),
            expected_state: TriageState::NeedsYou,
            expected_ask: Some("Do you want me to re-run the gauntlet?"),
        },
        Case {
            name: "merge language without a trailer ask",
            input: agent_input(
                "Everything is implemented and validated. I opened a PR with the \
                 changes; CI is green and it is awaiting review.",
            ),
            expected_state: TriageState::AwaitingMerge,
            expected_ask: None,
        },
        Case {
            name: "uncommitted work is awaiting merge",
            input: agent_input(
                "The refactor is complete and all 42 tests pass. Note that I did not \
                 commit the migration file; the changes are still uncommitted on the \
                 worktree.",
            ),
            expected_state: TriageState::AwaitingMerge,
            expected_ask: None,
        },
        Case {
            name: "ask trailer plus merge language, ask wins when not about merge",
            input: agent_input(
                "I opened a PR with the fix and CI is green. \
                 What I need from you: confirm the new default timeout of 30s is acceptable.",
            ),
            expected_state: TriageState::NeedsYou,
            expected_ask: Some("confirm the new default timeout of 30s is acceptable."),
        },
        Case {
            name: "plain done summary",
            input: agent_input(
                "Renamed the module, updated all twelve call sites, and verified the \
                 full test suite passes. The documentation now reflects the new name \
                 everywhere it was referenced.",
            ),
            expected_state: TriageState::Done,
            expected_ask: None,
        },
        Case {
            name: "last marker occurrence wins",
            input: agent_input(
                "Let me know if the naming bothers you. I also cleaned up the fixtures. \
                 Should I delete the legacy snapshot directory as well?",
            ),
            expected_state: TriageState::NeedsYou,
            expected_ask: Some("Should I delete the legacy snapshot directory as well?"),
        },
        Case {
            name: "say the word marker",
            input: agent_input(
                "The Tailscale entry is updated and validated against the live host. \
                 Say the word and I'll apply the same change to the Twingate config.",
            ),
            expected_state: TriageState::NeedsYou,
            expected_ask: Some(
                "Say the word and I'll apply the same change to the Twingate config.",
            ),
        },
    ];

    for case in cases {
        let result = triage(&case.input);
        assert_eq!(
            result.state, case.expected_state,
            "state for: {}",
            case.name
        );
        assert_eq!(
            result.ask.as_deref(),
            case.expected_ask,
            "ask for: {}",
            case.name
        );
    }
}

#[test]
fn ask_is_truncated_to_140_chars() {
    let long_tail = "x".repeat(300);
    let text = format!("Work is done. What I need from you: {}", long_tail);
    let ask = extract_ask(&text).unwrap();
    assert_eq!(ask.chars().count(), 140);
    assert!(ask.ends_with('…'));
}

#[test]
fn ask_on_following_line_is_captured() {
    let text = "Everything else is green.\nWhat I need from you:\n- merge PR #7\n";
    let ask = extract_ask(text).unwrap();
    assert_eq!(ask, "merge PR #7");
    let result = triage(&agent_input(text));
    assert_eq!(result.state, TriageState::AwaitingMerge);
}

#[test]
fn labels_name_the_states_in_display_order() {
    let labels: Vec<&str> = TriageState::ALL.iter().map(|state| state.label()).collect();
    assert_eq!(labels, vec!["Needs you", "Awaiting merge", "Running", "Done"]);
    assert!(TriageState::NeedsYou < TriageState::AwaitingMerge);
    assert!(TriageState::Running < TriageState::Done);
}

#[test]
fn markers_match_whole_words_only() {
    assert_eq!(extract_ask("I gave it two shoulds and should it fail, retry."), None);
    assert_eq!(extract_ask("The gadget wants: want me too."), None);
    assert_eq!(
        extract_ask("Tests pass. Should I ship?").as_deref(),
        Some("Should I ship?")
    );
}

#[test]
fn letters_of_every_script_continue_a_word() {
    assert_eq!(extract_ask("Should Iñigo go? That is the plan for now."), None);
    assert_eq!(extract_ask("Ünshould i go, or éshould i stay"), None);
    assert_eq!(extract_ask("Should I٣ go"), None);
    assert_eq!(
        extract_ask("Fertig… Should I — as agreed — go?").as_deref(),
        Some("Should I — as agreed — go?")
    );
    // A negation ends at a word boundary too.
    assert_eq!(
        extract_ask("What I need from you: Noneño").as_deref(),
        Some("Noneño")
    );
}

#[test]
fn upper_case_messages_leave_the_same_ask_in_upper_case() {
    let texts = [
        "All done.\n**What I need from you**: run `cargo test` on *main*",
        "Renamed it. Let me know if you'd like a changelog entry.",
        "Should I drop a*b? What I need from you: nothing.",
        "Keep the old snapshots (yes/no)",
        "Nothing to see.",
    ];
    for text in texts {
        assert_eq!(
            extract_ask(&text.to_ascii_uppercase()),
            extract_ask(text).map(|ask| ask.to_ascii_uppercase())
        );
    }
}

#[test]
fn markdown_is_stripped_from_asks() {
    assert_eq!(
        extract_ask("All done.\n**What I need from you**: run `cargo test` on **main**").as_deref(),
        Some("run cargo test on main")
    );
}

#[test]
fn asks_are_verbatim_but_for_pairs_of_marks() {
    let asks = [
        ("Should I drop a*b", "Should I drop a*b"),
        ("Should I delete target/*?", "Should I delete target/*?"),
        ("What I need from you: review src/*.rs", "review src/*.rs"),
        ("What I need from you: *.rs files only", "*.rs files only"),
        (
            "Should I keep src/*.rs and tests/*.rs as they are",
            "Should I keep src/*.rs and tests/*.rs as they are",
        ),
        ("Should I match .*foo.* here", "Should I match .*foo.* here"),
        ("Should I run `ls *.rs *` now", "Should I run ls *.rs * now"),
        ("**Should I delete it?** Then I stop.", "Should I delete it?"),
        ("Do **you** want *both*?", "Do you want both?"),
        ("**What I need from you:** merge it", "merge it"),
        ("What I need from you**: merge it", "merge it"),
        ("What I need from you:\n* merge it", "merge it"),
        ("What I need from you: fix the ` sign", "fix the ` sign"),
    ];
    for (text, ask) in asks {
        assert_eq!(extract_ask(text).as_deref(), Some(ask), "{text}");
    }
}

#[test]
fn soft_offers_file_under_done() {
    let text = "Renamed the module and updated all twelve call sites. \
        Let me know if you'd like a changelog entry.";
    let result = triage(&agent_input(text));
    assert_eq!(result.state, TriageState::Done);
    assert_eq!(
        result.ask.as_deref(),
        Some("Let me know if you'd like a changelog entry.")
    );
    assert_eq!(extract_hard_ask(text), None);
    let result = triage(&agent_input("All suites pass. Want me to tag a release? I can wait."));
    assert_eq!(result.state, TriageState::Done);
    assert_eq!(result.ask.as_deref(), Some("Want me to tag a release?"));
    // An offer that is itself about merging waits for the merge.
    let result = triage(&agent_input("The work is done. Want me to merge PR #12 for you?"));
    assert_eq!(result.state, TriageState::AwaitingMerge);
    assert_eq!(result.ask.as_deref(), Some("Want me to merge PR #12 for you?"));
    // A short offer is no stub.
    let result = triage(&agent_input("Want me to go on?"));
    assert_eq!(result.state, TriageState::Done);
}

#[test]
fn hard_asks_come_before_soft_offers() {
    let text = "Should I delete the snapshots? Let me know if anything else comes up.";
    assert_eq!(extract_ask(text).as_deref(), Some("Should I delete the snapshots?"));
    assert_eq!(
        extract_offer(text).as_deref(),
        Some("Let me know if anything else comes up.")
    );
    assert_eq!(triage(&agent_input(text)).state, TriageState::NeedsYou);
    let text = "Keep the old snapshots (yes/no)\nLet me know.";
    assert_eq!(extract_ask(text).as_deref(), Some("Keep the old snapshots (yes/no)"));
    // "want me to" is part of "Do you want me to".
    assert_eq!(extract_offer("Do you want me to stop?"), None);
    // Markers that overlap are one phrase.
    assert_eq!(
        extract_ask("Should I need from you: a token?").as_deref(),
        Some("Should I need from you: a token?")
    );
}

#[test]
fn declined_asks_fall_back_to_earlier_ones() {
    let text = "Should I delete the snapshots? All else is finished.\n\
        What I need from you: nothing.";
    assert_eq!(extract_ask(text).as_deref(), Some("Should I delete the snapshots?"));
    assert_eq!(triage(&agent_input(text)).state, TriageState::NeedsYou);
    let text = "What I need from you: pick a name.\nWhat I need from you: none";
    assert_eq!(extract_ask(text).as_deref(), Some("pick a name."));
    let text = "Let me know if it is too slow for you.\nWhat I need from you: No action.";
    let result = triage(&agent_input(text));
    assert_eq!(result.state, TriageState::Done);
    assert_eq!(result.ask.as_deref(), Some("Let me know if it is too slow for you."));
}

#[test]
fn earlier_lines_do_not_change_the_ask() {
    let text = "The rest is done.\nShould I go on with *step two*?";
    let earlier = "**Do you want** to see the `log`?\nWhat I need from you:";
    assert_eq!(extract_ask(text).as_deref(), Some("Should I go on with step two?"));
    assert_eq!(extract_ask(&format!("{earlier}\n{text}")), extract_ask(text));
    let offer = "Let me know if you want more.";
    assert_eq!(extract_ask(&format!("Want me to stop?\n{offer}")), extract_ask(offer));
    // A hard ask on an earlier line comes before an offer.
    assert_eq!(
        extract_ask(&format!("Should I stop?\n{offer}")).as_deref(),
        Some("Should I stop?")
    );
}

#[test]
fn asks_end_with_their_first_question() {
    assert_eq!(
        extract_ask("Do you want the long form? Otherwise I stop here.").as_deref(),
        Some("Do you want the long form?")
    );
    // A question mark inside a word ends nothing.
    assert_eq!(
        extract_ask("Should I use ?limit=5 or not").as_deref(),
        Some("Should I use ?limit=5 or not")
    );
}

#[test]
fn negated_asks_do_not_count() {
    let text = "Everything is finished. What I need from you: Nothing required. \
        Optional follow-up: rename the branch.";
    assert_eq!(extract_ask(text), None);
    assert_eq!(triage(&agent_input(text)).state, TriageState::Done);
    let text = "I opened a PR for it and the checks pass. What I need from you: No action.";
    let result = triage(&agent_input(text));
    assert_eq!(result.state, TriageState::AwaitingMerge);
    assert_eq!(result.ask, None);
    assert_eq!(extract_ask("What I need from you: none"), None);
    // A word that only starts like a negation is an ask.
    assert_eq!(
        extract_ask("What I need from you: Nonetheless, look at it").as_deref(),
        Some("Nonetheless, look at it")
    );
}

#[test]
fn yes_no_questions_are_asks() {
    assert_eq!(
        extract_ask("The run is done.\n- Keep the old snapshots (yes/no)\nThanks").as_deref(),
        Some("Keep the old snapshots (yes/no)")
    );
    // A marker in the line says where the ask starts.
    assert_eq!(
        extract_ask("It failed twice. Do you want me to run it again? (yes/no)").as_deref(),
        Some("Do you want me to run it again?")
    );
    // The last of the asks counts, whatever announces it.
    assert_eq!(
        extract_ask("Should I stop?\nDrop the cache: yes/no").as_deref(),
        Some("Drop the cache: yes/no")
    );
    assert_eq!(
        extract_ask("Drop the cache: yes/no\nShould I stop?").as_deref(),
        Some("Should I stop?")
    );
    assert_eq!(
        extract_ask("Please test the new build on your machine.").as_deref(),
        Some("Please test the new build on your machine.")
    );
}

#[test]
fn a_message_without_markers_asks_nothing() {
    assert_eq!(extract_ask(""), None);
    assert_eq!(extract_ask("What I need from you:"), None);
    assert_eq!(extract_ask("Renamed twelve modules and ran every suite."), None);
}

#[test]
fn merge_language_is_found_whatever_its_case() {
    assert!(has_merge_language("please MERGE PR 12"));
    assert!(has_merge_language("see PR #99"));
    assert!(has_merge_language("I haven't committed yet"));
    assert!(!has_merge_language("the sets were merged by hand"));
}

#[test]
fn a_stub_is_one_character_short_of_done() {
    let stub = "x".repeat(STUB_LEN - 1);
    let whole = "x".repeat(STUB_LEN);
    assert_eq!(triage(&agent_input(&stub)).state, TriageState::Running);
    assert_eq!(triage(&agent_input(&whole)).state, TriageState::Done);
    // Surrounding whitespace does not count.
    let padded = format!("  {}\n\n", stub);
    assert_eq!(triage(&agent_input(&padded)).state, TriageState::Running);
}

#[test]
fn classification_follows_the_merge_verdicts() {
    let text = "What I need from you: look at the branch and tell me what you think";
    let input = agent_input(text);
    let ask = Some("look at the branch and tell me what you think".to_string());
    let result = classify(&input, true, true);
    assert_eq!((result.state, result.ask), (TriageState::AwaitingMerge, ask.clone()));
    let result = classify(&input, true, false);
    assert_eq!((result.state, result.ask), (TriageState::NeedsYou, ask.clone()));
    let result = classify(&input, false, true);
    assert_eq!((result.state, result.ask), (TriageState::NeedsYou, ask));
    let offer = agent_input("Let me know if the branch looks odd to you.");
    let ask = Some("Let me know if the branch looks odd to you.".to_string());
    let result = classify(&offer, true, true);
    assert_eq!((result.state, result.ask), (TriageState::AwaitingMerge, ask.clone()));
    let result = classify(&offer, true, false);
    assert_eq!((result.state, result.ask), (TriageState::Done, ask));
    let result = classify(&agent_input("short"), true, false);
    assert_eq!((result.state, result.ask), (TriageState::AwaitingMerge, None));
}

#[test]
fn truncation_keeps_short_texts_and_marks_long_ones() {
    assert_eq!(truncate_chars("abc", 3), "abc");
    assert_eq!(truncate_chars("abcd", 3), "ab…");
    assert_eq!(truncate_chars("abcd", 0), "…");
    assert_eq!(truncate_chars("äöü", 2), "ä…");
    assert_eq!(MAX_ASK_LEN, 140);
}
