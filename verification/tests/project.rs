use snes_iris::dis::{LineKind, Rule};
use snes_iris::driver::{edit_label, has_text, sanitize_label, GlobalState, SavedData};
use snes_iris::rom::{Mapper, Rom};
use std::collections::HashMap;

fn cartridge() -> Rom {
    let mut cart = vec![0u8; 0x10000];
    cart[0x0000..0x0004].copy_from_slice(&[0x20, 0x00, 0x90, 0x60]);
    cart[0x1000] = 0x60;
    cart[0x2004..0x2006].copy_from_slice(&[0x00, 0xB0]);
    cart[0x3000] = 0x6B;
    cart[0x8000] = 0x01;
    cart[0x7FFC..0x7FFE].copy_from_slice(&[0x00, 0x80]);
    Rom::new(cart, Mapper::LoRom)
}

fn annotations() -> SavedData {
    let mut comments = HashMap::new();
    comments.insert(0x008000, vec!["entry point".to_string()]);
    let mut label_names = HashMap::new();
    label_names.insert(0x009000, "init".to_string());
    SavedData {
        rules: vec![Rule::JumpTable { pc: 0x00A000, size: 1, long: false }],
        comments,
        label_names,
    }
}

#[test]
fn opening_a_project_analyses_and_renders() {
    let state = GlobalState::new(cartridge(), annotations(), "rules.yml".to_string());
    assert_eq!(state.bank, 0);
    assert_eq!(state.selection, None);
    assert_eq!(state.editing_comment, None);
    assert_eq!(state.editing_label, None);
    assert_eq!(state.rules_filename, "rules.yml");
    assert_eq!(state.rules, vec![Rule::JumpTable { pc: 0x00A000, size: 1, long: false }]);
    assert_eq!(state.comments[&0x008000], vec!["entry point".to_string()]);
    assert_eq!(state.rom.load(0x018000), 0x01);
    assert_eq!(state.dis.label_names[&0x009000], "init");
    // The rule's pointer was followed.
    assert!(state.dis.entries.contains_key(&0x00B000));
    let texts: Vec<&str> = state.lines.iter().take(4).map(|l| l.text.as_str()).collect();
    assert_eq!(texts, vec!["sub_008000:", "    jsr.w init", "    rts", ""]);
    assert_eq!(state.lines, state.dis.print_bank(0));
}

#[test]
fn changing_the_bank_renders_it() {
    let mut state = GlobalState::new(cartridge(), annotations(), "rules.yml".to_string());
    state.bank = 1;
    state.update_lines();
    assert_eq!(state.lines.len(), 0x8000);
    assert_eq!(state.lines[0].pc, 0x018000);
    assert_eq!(state.lines[0].text, "    db $01");
    assert_eq!(state.lines[0].kind, LineKind::Data);
    state.dis.label_names.insert(0x018000, "level_data".to_string());
    state.update_lines();
    assert_eq!(state.lines[0].text, "level_data:");
    assert_eq!(state.lines[1].text, "    db $01");
}

#[test]
fn saving_drops_comments_without_text() {
    let mut state = GlobalState::new(cartridge(), annotations(), "rules.yml".to_string());
    state.comments.insert(0x008003, vec![]);
    state.comments.insert(0x009000, vec![String::new(), String::new()]);
    state.comments.insert(0x00B000, vec![String::new(), "second line".to_string()]);
    let lines = state.lines.len();
    state.save();
    let mut kept: Vec<u32> = state.comments.keys().copied().collect();
    kept.sort();
    assert_eq!(kept, vec![0x008000, 0x00B000]);
    assert_eq!(state.comments[&0x00B000], vec![String::new(), "second line".to_string()]);
    assert_eq!(state.comments[&0x008000], vec!["entry point".to_string()]);
    assert_eq!(state.lines.len(), lines);
    assert_eq!(state.bank, 0);
}

#[test]
fn comment_entries_with_and_without_text() {
    assert!(!has_text(&vec![]));
    assert!(!has_text(&vec![String::new()]));
    assert!(!has_text(&vec![String::new(), String::new()]));
    assert!(has_text(&vec!["x".to_string()]));
    assert!(has_text(&vec![String::new(), " ".to_string()]));
}

#[test]
fn label_names_keep_allowed_characters_only() {
    assert_eq!(sanitize_label("Reset_Handler.2"), "Reset_Handler.2");
    assert_eq!(sanitize_label("main loop!"), "mainloop");
    assert_eq!(sanitize_label("a-b+c:d"), "abcd");
    assert_eq!(sanitize_label("zäh€ler"), "zhler");
    assert_eq!(sanitize_label(" \t"), "");
    assert_eq!(sanitize_label(""), "");
    assert_eq!(sanitize_label("AZaz09_."), "AZaz09_.");
    assert_eq!(sanitize_label("@[`{/:"), "");
}

#[test]
fn editing_a_label_moves_the_caret_back() {
    let mut label = "main loop".to_string();
    assert_eq!(edit_label(&mut label, 5), 4);
    assert_eq!(label, "mainloop");

    let mut label = "ab!!cd".to_string();
    assert_eq!(edit_label(&mut label, 4), 2);
    assert_eq!(label, "abcd");

    let mut label = "clean".to_string();
    assert_eq!(edit_label(&mut label, 3), 3);
    assert_eq!(label, "clean");

    // The caret never moves before the start.
    let mut label = "x???".to_string();
    assert_eq!(edit_label(&mut label, 2), 0);
    assert_eq!(label, "x");

    // Characters count, not bytes.
    let mut label = "é€x".to_string();
    assert_eq!(edit_label(&mut label, 3), 1);
    assert_eq!(label, "x");
}

#[test]
fn renaming_a_label_cleans_the_name_and_renders() {
    let mut state = GlobalState::new(cartridge(), annotations(), "rules.yml".to_string());
    // Two characters are elided, so the caret moves two places back.
    let moved = state.rename_label(0x008000, "Reset Vector!", 6);
    assert_eq!(moved, 4);
    assert_eq!(state.dis.label_names[&0x008000], "ResetVector");
    assert_eq!(state.lines[0].text, "ResetVector:");
    assert_eq!(state.lines[0].kind, LineKind::Label);
    // A name for an address without label puts a label row before it.
    let rows = state.lines.len();
    state.rename_label(0x008003, "leave", 0);
    assert_eq!(state.lines.len(), rows + 1);
    assert_eq!(state.lines[2].text, "leave:");
    assert_eq!(state.lines[3].text, "    rts");
    assert_eq!(state.bank, 0);
}

#[test]
fn setting_comment_lines() {
    let mut state = GlobalState::new(cartridge(), annotations(), "rules.yml".to_string());
    state.set_comment(0x008000, 0, "start".to_string());
    assert_eq!(state.comments[&0x008000], vec!["start".to_string()]);
    state.set_comment(0x008000, 1, "of the game".to_string());
    assert_eq!(state.comments[&0x008000], vec!["start".to_string(), "of the game".to_string()]);
    // Lines that are missing before the new one are left empty.
    state.set_comment(0x008003, 2, "back".to_string());
    assert_eq!(
        state.comments[&0x008003],
        vec![String::new(), String::new(), "back".to_string()]
    );
    // An empty line on an address without comment leaves no entry.
    state.set_comment(0x009000, 0, String::new());
    assert!(!state.comments.contains_key(&0x009000));
    assert_eq!(state.comments.len(), 2);
}

#[test]
fn clearing_comment_lines() {
    let mut state = GlobalState::new(cartridge(), annotations(), "rules.yml".to_string());
    state.set_comment(0x008003, 0, "one".to_string());
    state.set_comment(0x008003, 1, "two".to_string());
    state.set_comment(0x008003, 2, "three".to_string());
    // A cleared line in the middle keeps its place.
    state.set_comment(0x008003, 1, String::new());
    assert_eq!(
        state.comments[&0x008003],
        vec!["one".to_string(), String::new(), "three".to_string()]
    );
    // Clearing the last line takes the empty lines before it along.
    state.set_comment(0x008003, 2, String::new());
    assert_eq!(state.comments[&0x008003], vec!["one".to_string()]);
    // An empty line past the end changes nothing.
    state.set_comment(0x008003, 5, String::new());
    assert_eq!(state.comments[&0x008003], vec!["one".to_string()]);
    // Clearing the only line removes the entry; other entries stay.
    state.set_comment(0x008003, 0, String::new());
    assert!(!state.comments.contains_key(&0x008003));
    assert_eq!(state.comments[&0x008000], vec!["entry point".to_string()]);
    assert_eq!(state.comments.len(), 1);
}
