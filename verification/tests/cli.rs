use bebelm::cli::{
    chat_input, chat_limit, command, completion, weights_path, ArgumentError, ChatInput, Command, Palette,
};
use bebelm::text::{join, parse_usize, push_decimal, push_list, trim};

fn words(v: &[&str]) -> Vec<String> {
    v.iter().map(|s| s.to_string()).collect()
}

#[test]
fn commands() {
    assert_eq!(command(&words(&["bebelm", "complete", "8", "Hello"])), Command::Complete);
    assert_eq!(command(&words(&["bebelm", "complete", "8"])), Command::Complete);
    assert_eq!(command(&words(&["bebelm", "complete"])), Command::CompleteUsage);
    assert_eq!(command(&words(&["bebelm", "chat"])), Command::Chat);
    assert_eq!(command(&words(&["bebelm", "chat", "9"])), Command::Chat);
    assert_eq!(command(&words(&["bebelm", "Chat"])), Command::Help);
    assert_eq!(command(&words(&["bebelm"])), Command::Help);
    assert_eq!(command(&[]), Command::Help);
}

#[test]
fn weights_come_from_the_environment_first() {
    assert_eq!(weights_path(Some("/w.gguf".to_string())), "/w.gguf");
    assert_eq!(weights_path(None), "./LFM2.5-8B-A1B-Q4_K_M.gguf");
}

#[test]
fn completions() {
    match completion("8", &words(&["The", "capital", "of France"])) {
        Ok(c) => assert_eq!((c.max_gen, c.text.as_str()), (8, "The capital of France")),
        Err(_) => panic!("refused"),
    }
    assert!(matches!(completion("eight", &words(&["x"])), Err(ArgumentError::MaxNewTokens(_))));
    assert!(matches!(completion("eight", &[]), Err(ArgumentError::MaxNewTokens(_))));
    assert!(matches!(completion("8", &[]), Err(ArgumentError::NoPrompt)));
    assert!(matches!(completion("8", &words(&[""])), Err(ArgumentError::NoPrompt)));
    assert!(completion("8", &words(&["", ""])).is_ok());
}

#[test]
fn chat_limits() {
    assert!(matches!(chat_limit(&[]), Ok(None)));
    assert!(matches!(chat_limit(&words(&["200", "x"])), Ok(Some(200))));
    assert!(matches!(chat_limit(&words(&["-1"])), Err(ArgumentError::MaxNew(_))));
}

#[test]
fn argument_errors_in_words() {
    for bad in ["eight", "a\"b\n", "", "\u{1b}[0m é"] {
        match completion(bad, &words(&["x"])) {
            Err(e) => assert_eq!(e.message(), format!("invalid max-new-tokens {bad:?}")),
            Ok(_) => panic!("accepted {bad:?}"),
        }
        match chat_limit(&words(&[bad])) {
            Err(e) => assert_eq!(e.message(), format!("invalid max-new {bad:?}")),
            Ok(_) => panic!("accepted {bad:?}"),
        }
    }
    match completion("8", &[]) {
        Err(e) => assert_eq!(e.message(), "need a prompt"),
        Ok(_) => panic!("accepted nothing"),
    }
    assert_eq!(ArgumentError::MaxNew("x".to_string()).message_with("<x>"), "invalid max-new <x>");
}

#[test]
fn chat_lines() {
    assert!(matches!(chat_input("  \t\r\n"), ChatInput::Nothing));
    assert!(matches!(chat_input("\n"), ChatInput::Nothing));
    assert!(matches!(chat_input(""), ChatInput::End));
    assert!(matches!(chat_input(" /exit\n"), ChatInput::Quit));
    assert!(matches!(chat_input("/quit"), ChatInput::Quit));
    match chat_input("  hello /exit \n") {
        ChatInput::Message(m) => assert_eq!(m, "hello /exit"),
        _ => panic!("not a message"),
    }
}

#[test]
fn colours_only_on_a_terminal() {
    let p = Palette::detect(true);
    assert_eq!((p.user, p.think, p.answer), ("\x1b[1;32m", "\x1b[36m", "\x1b[31m"));
    assert_eq!((p.dim, p.reset), ("\x1b[2m", "\x1b[0m"));
    assert_eq!(p.user_prompt(), "\x1b[1;32mUser>\x1b[0m ");
    let q = Palette::detect(false);
    assert_eq!((q.user, q.think, q.answer, q.dim, q.reset), ("", "", "", "", ""));
    assert_eq!(q.user_prompt(), "User> ");
}

#[test]
fn reasoning_changes_colour() {
    let p = Palette::detect(true);
    assert_eq!(p.reply_piece(7, "<think>", 7, 8, 9), "\x1b[36m<think>");
    assert_eq!(p.reply_piece(8, "</think>", 7, 8, 9), "</think>\n\x1b[31m");
    assert_eq!(p.reply_piece(6, " hi", 7, 8, 9), " hi");
    // The token that ends the reply is not shown.
    assert_eq!(p.reply_piece(9, "<|im_end|>", 7, 8, 9), "");
}

#[test]
fn numbers_parse_like_unsigned_integers() {
    let samples = [
        "0", "7", "007", "+12", "+", "", "-0", " 1", "1 ", "1_000", "0x10", "18446744073709551615",
        "18446744073709551616", "99999999999999999999999", "++1", "١", "4294967296",
    ];
    for s in samples {
        assert_eq!(parse_usize(s), s.parse::<usize>().ok(), "{s:?}");
    }
}

#[test]
fn decimals_read_back() {
    for n in [0u64, 9, 10, 105, 4096, u64::MAX] {
        let mut s = String::new();
        push_decimal(&mut s, n);
        assert_eq!(s, n.to_string());
        assert_eq!(parse_usize(&s).map(|v| v as u64), Some(n));
    }
    let mut l = "x".to_string();
    push_list(&mut l, &[1, 20, 300]);
    assert_eq!(l, "x[1, 20, 300]");
}

#[test]
fn trimming_follows_unicode() {
    let samples = [
        "", " ", "a", " a b ", "\u{3000}x\u{2003}", "\u{85}\u{a0}\u{1680}y\u{2028}\u{205f}", "\u{200b}z",
        "\u{feff} q", "\n\u{b}w\u{c}\r",
    ];
    for s in samples {
        assert_eq!(trim(s), s.trim(), "{s:?}");
        assert_eq!(trim(trim(s)), trim(s));
    }
    for c in (0u32..0x11_0000).filter_map(char::from_u32) {
        let s = c.to_string();
        assert_eq!(trim(&s).is_empty(), c.is_whitespace(), "{c:?}");
    }
}

#[test]
fn words_join_with_spaces() {
    assert_eq!(join(&[]), "");
    assert_eq!(join(&words(&["a"])), "a");
    assert_eq!(join(&words(&["a", "", "b c"])), "a  b c");
}
