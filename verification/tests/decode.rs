use user_backtrace::decode_backtrace;
use user_backtrace::text::chars_of;
use user_backtrace::text::find_text;
use user_backtrace::text::has_prefix_at;
use user_backtrace::text::piece;
use user_backtrace::text::same_text;
use user_backtrace::text::scan_run;
use user_backtrace::text::split_lines;
use user_backtrace::text::string_of;
use user_backtrace::text::CharClass;
use user_backtrace::decode_with_defaults;
use user_backtrace::hidden_packages;
use user_backtrace::DecodeError;
use user_backtrace::DecodedFrame;
use user_backtrace::DecodedUserBacktrace;
use user_backtrace::UserBacktrace;

fn nested2() -> anyhow::Result<()> {
    Err(anyhow::Error::msg("Not implemented"))
}

fn nested1() -> anyhow::Result<()> {
    nested2()
}

fn frames_of(raw: &str, deny: &[&str]) -> Vec<(String, Option<String>)> {
    match decode_backtrace(raw, deny) {
        Ok(DecodedUserBacktrace::Frames(frames)) => frames
            .into_iter()
            .map(|f: DecodedFrame| (f.frame, f.location))
            .collect(),
        Ok(DecodedUserBacktrace::Disabled) => panic!("disabled"),
        Err(e) => panic!("malformed: {}", e.fragment()),
    }
}

fn pair(symbol: &str, location: Option<&str>) -> (String, Option<String>) {
    (symbol.to_string(), location.map(|l| l.to_string()))
}

const TRACE1: &str = "   0: anyhow::error::<impl anyhow::Error>::msg
             at /home/user/.cargo/registry/src/anyhow-1.0.75/src/error.rs:83:36
   1: myapp::service::load
             at ./src/service.rs:42:9
   2: <myapp::Widget as core::ops::function::FnOnce<Args>>::call_once
   3: core::ops::function::FnOnce::call_once
             at /rustc/abc/library/core/src/ops/function.rs:250:5
   4: <alloc::boxed::Box<F,A> as core::ops::function::FnOnce<Args>>::call_once
             at /rustc/abc/library/alloc/src/boxed.rs:2007:9
   5: tokio::runtime::task::raw::poll
   6: std::sys::unix::thread::Thread::new::thread_start
             at /rustc/abc/library/std/src/sys/unix/thread.rs:108:17
   7: start_thread
   8: clone
";

#[test]
fn test_anyhow_err() {
    let Err(e) = nested1() else {
        panic!("expected error");
    };
    let raw = e.backtrace().to_string();
    println!("backtrace: {}", raw);
    let user_backtrace = format!("{}", e.user_backtrace().unwrap().to_string());
    println!("{}", user_backtrace);
    if raw.lines().next() == Some("disabled backtrace") {
        // the process runs with capture switched off
        assert_eq!(user_backtrace, "disabled backtrace\n");
    } else {
        assert_eq!(user_backtrace.lines().count(), 8);
    }
}

#[test]
fn test_parse_backtrace1() {
    let s = TRACE1;
    let r = decode_backtrace(s, &hidden_packages()).unwrap();
    let r = r.to_string();
    println!("{}", r);
    assert_eq!(r.lines().count(), 3);
}

#[test]
fn renders_retained_frames_exactly() {
    let r = decode_with_defaults(TRACE1).unwrap().to_string();
    assert_eq!(
        r,
        "myapp::service::load\n             at ./src/service.rs:42:9\n<myapp::Widget as core::ops::function::FnOnce<Args>>::call_once\n"
    );
}

#[test]
fn sentinel_first_line_is_disabled() {
    let r = decode_backtrace("disabled backtrace", &["core"]).unwrap();
    assert!(matches!(r, DecodedUserBacktrace::Disabled));
    let r = decode_backtrace("disabled backtrace\n   0: a::b\n   1: <Foo>\nrubbish", &[]).unwrap();
    assert!(matches!(r, DecodedUserBacktrace::Disabled));
    let r = decode_backtrace("disabled backtrace\r\n   1: a::b\n", &[]).unwrap();
    assert!(matches!(r, DecodedUserBacktrace::Disabled));
}

#[test]
fn sentinel_must_be_the_whole_first_line() {
    let r = decode_backtrace("disabled backtrace \n   1: a::b\n", &[]).unwrap();
    assert!(matches!(r, DecodedUserBacktrace::Frames(_)));
    let r = decode_backtrace("   0: x::y\ndisabled backtrace\n", &[]).unwrap();
    assert!(matches!(r, DecodedUserBacktrace::Frames(_)));
}

#[test]
fn empty_input_is_disabled() {
    let r = decode_backtrace("", &["core"]).unwrap();
    assert!(matches!(r, DecodedUserBacktrace::Disabled));
    assert_eq!(r.to_string(), "disabled backtrace\n");
}

#[test]
fn single_empty_line_is_not_disabled() {
    assert_eq!(frames_of("\n", &[]), vec![]);
}

#[test]
fn no_frame_one_gives_no_frames() {
    assert_eq!(frames_of("stack backtrace:\n   0: a::b\n   2: c::d\n", &[]), vec![]);
    let r = decode_backtrace("   0: a::b\n", &[]).unwrap();
    assert_eq!(r.to_string(), "");
}

#[test]
fn everything_before_frame_one_is_discarded() {
    let raw = "Stack backtrace:\n   0: <Foo>\n      at nowhere\nnot a frame at all\n   1: app::run\n";
    assert_eq!(frames_of(raw, &[]), vec![pair("app::run", None)]);
}

#[test]
fn end_to_end_scenario() {
    let raw = "   0: std::backtrace::Backtrace::capture
   1: core::f
   2: myapp::handler
   3: <myapp::Widget as core::Trait>::run
   4: start_thread
";
    assert_eq!(
        frames_of(raw, &["core", "std"]),
        vec![
            pair("myapp::handler", None),
            pair("<myapp::Widget as core::Trait>::run", None),
        ]
    );
}

#[test]
fn generic_frame_needs_both_sides_listed() {
    let raw = "   1: <core::A as std::B>::f\n   2: <core::A as app::B>::f\n   3: <app::A as std::B>::f\n   4: <app::A as lib::B>::f\n";
    assert_eq!(
        frames_of(raw, &["core", "std"]),
        vec![
            pair("<core::A as app::B>::f", None),
            pair("<app::A as std::B>::f", None),
            pair("<app::A as lib::B>::f", None),
        ]
    );
}

#[test]
fn generic_frame_splits_at_the_first_as() {
    let raw = "   1: <core::A as std::B as app::C>::f\n";
    assert_eq!(frames_of(raw, &["core", "std"]), vec![]);
    assert_eq!(frames_of(raw, &["core", "app"]).len(), 1);
}

#[test]
fn listed_origin_is_suppressed_with_its_location() {
    let raw = "   1: tokio::spawn\n      at tokio.rs:1\n   2: app::main\n      at main.rs:2\n";
    assert_eq!(
        frames_of(raw, &["tokio"]),
        vec![pair("app::main", Some("      at main.rs:2"))]
    );
    assert_eq!(frames_of(raw, &["tokio", "app"]), vec![]);
    assert_eq!(frames_of(raw, &["tok", "tokio:", "ap"]).len(), 2);
}

#[test]
fn location_is_kept_as_the_raw_line() {
    let raw = "   1: app::a\n\u{20}            at /src/a.rs:10:5\n   2: app::b\nat b.rs:1\n   3: app::c\n";
    assert_eq!(
        frames_of(raw, &[]),
        vec![
            pair("app::a", Some("             at /src/a.rs:10:5")),
            pair("app::b", Some("at b.rs:1")),
            pair("app::c", None),
        ]
    );
}

#[test]
fn thread_entry_frames_are_dropped() {
    let raw = "   1: app::a\n   2: start_thread\n      at pthread.c:1\n   3: clone\n   4: clone3::x\n   5: start_thread_now::y\n   6: app::clone\n";
    assert_eq!(
        frames_of(raw, &[]),
        vec![pair("app::a", None), pair("app::clone", None)]
    );
}

#[test]
fn wrapper_symbols_are_dropped() {
    let raw = "   1: __rust_try\n   2: __libc_start_main\n   3: app::__inner\n   4: _x::y\n";
    assert_eq!(
        frames_of(raw, &[]),
        vec![pair("app::__inner", None), pair("_x::y", None)]
    );
}

#[test]
fn wrapper_symbol_leaves_its_location_line_behind() {
    let raw = "   1: __rust_try\n      at try.rs:1\n   2: app::a\n";
    match decode_backtrace(raw, &[]) {
        Err(DecodeError::MissingLabel(line)) => assert_eq!(line, "      at try.rs:1"),
        _ => panic!("expected a missing label"),
    }
}

#[test]
fn label_of_any_width_is_stripped() {
    let raw = "1: app::a\n 12: app::b\n      123456: app::c\n";
    assert_eq!(
        frames_of(raw, &[]),
        vec![pair("app::a", None), pair("app::b", None), pair("app::c", None)]
    );
}

#[test]
fn only_index_one_starts_the_frames() {
    assert_eq!(frames_of("  10: app::a\n  11: app::b\n  01: app::c\n", &[]), vec![]);
    assert_eq!(frames_of("   0: app::a\n   1: app::b\n", &[]), vec![pair("app::b", None)]);
}

#[test]
fn carriage_returns_before_line_feeds_are_dropped() {
    let raw = "   0: x::y\r\n   1: app::a\r\n      at a.rs:1\r\n   2: app::b\r";
    assert_eq!(
        frames_of(raw, &[]),
        vec![pair("app::a", Some("      at a.rs:1")), pair("app::b\r", None)]
    );
}

#[test]
fn non_ascii_text_is_carried_through() {
    let raw = "   1: app::gr\u{fc}\u{df}e\n      at stra\u{df}e.rs:1\n";
    assert_eq!(
        frames_of(raw, &[]),
        vec![pair("app::gr\u{fc}\u{df}e", Some("      at stra\u{df}e.rs:1"))]
    );
}

#[test]
fn generic_frame_without_as_is_malformed() {
    match decode_backtrace("   0: a::b\n   1: <Foo>\n", &["Foo"]) {
        Err(DecodeError::MissingAs(d)) => assert_eq!(d, "<Foo>"),
        _ => panic!("expected a missing ` as `"),
    }
    match decode_backtrace("   1: app::a\n   2: <a::Foo as>::f\n", &[]) {
        Err(e) => {
            assert!(matches!(e, DecodeError::MissingAs(_)));
            assert_eq!(e.fragment(), "<a::Foo as>::f");
        }
        Ok(_) => panic!("expected a missing ` as `"),
    }
}

#[test]
fn missing_path_separator_is_malformed() {
    match decode_backtrace("   1: main\n", &[]) {
        Err(DecodeError::MissingPathSeparator(d)) => assert_eq!(d, "main"),
        _ => panic!("expected a missing path separator"),
    }
    match decode_backtrace("   1: <F as core::T>::f\n", &["F", "core"]) {
        Err(DecodeError::MissingPathSeparator(d)) => assert_eq!(d, "<F as core::T>::f"),
        _ => panic!("expected a missing path separator"),
    }
    match decode_backtrace("   1: <a::F as T>\n", &[]) {
        Err(DecodeError::MissingPathSeparator(d)) => assert_eq!(d, "<a::F as T>"),
        _ => panic!("expected a missing path separator"),
    }
}

#[test]
fn line_without_label_is_malformed() {
    for raw in [
        "   1: app::a\nnot a frame\n",
        "   1: app::a\n   : app::b\n",
        "   1: app::a\n   2:app::b\n",
        "   1: app::a\n   2 : app::b\n",
        "   1: app::a\n      at a.rs:1\n      at b.rs:2\n",
        "   1: app::a\n\n",
    ] {
        let bad = raw.lines().last().unwrap();
        match decode_backtrace(raw, &[]) {
            Err(DecodeError::MissingLabel(line)) => assert_eq!(line, bad),
            _ => panic!("expected a missing label"),
        }
    }
}

#[test]
fn failure_wins_over_earlier_frames() {
    assert!(decode_backtrace("   1: app::a\n   2: app::b\n   3: <Foo>\n", &[]).is_err());
}

#[test]
fn suppression_comes_before_the_origin_check() {
    assert_eq!(frames_of("   1: clone\n   2: start_thread\n   3: __x\n", &[]), vec![]);
}

#[test]
fn reparsing_the_rendering_gives_the_same_frames() {
    let first = frames_of(TRACE1, &hidden_packages());
    let raw = "   0: anyhow::capture\n   1: myapp::service::load\n             at ./src/service.rs:42:9\n   2: <myapp::Widget as core::ops::function::FnOnce<Args>>::call_once\n";
    assert_eq!(frames_of(raw, &hidden_packages()), first);
}

#[test]
fn default_list_holds_the_runtime_packages() {
    let names = hidden_packages();
    assert_eq!(names.len(), 17);
    for n in ["F", "alloc", "anyhow", "axum", "backtrace", "core", "futures", "futures_core",
        "futures_util", "hyper", "hyper_util", "std", "test", "tokio", "tower", "tower_service",
        "tracing"]
    {
        assert!(names.contains(&n));
    }
    assert_eq!(frames_of("   1: axum::serve\n   2: tracing::span\n   3: app::a\n", &names).len(), 1);
}

#[test]
fn error_without_capture_is_disabled_or_decoded() {
    let e = anyhow::Error::msg("boom");
    let raw = e.backtrace().to_string();
    let got = e.user_backtrace();
    let want = decode_with_defaults(&raw);
    match (got, want) {
        (Ok(a), Ok(b)) => assert_eq!(a.to_string(), b.to_string()),
        (Err(a), Err(b)) => assert_eq!(a.fragment(), b.fragment()),
        _ => panic!("the adapter and the decoder disagree"),
    }
}

#[test]
fn lines_are_split_as_the_standard_library_splits_them() {
    for s in [
        "", "\n", "a", "a\n", "a\r\n", "a\r", "a\n\nb", "\r\n", "a\r\r\n", "a\nb\r", "\n\n",
        "\ra\n", "a\n\r", "one\ntwo\nthree", "one\r\ntwo\r\n",
    ] {
        let got: Vec<String> = split_lines(&chars_of(s)).iter().map(string_of).collect();
        let want: Vec<String> = s.lines().map(|l| l.to_string()).collect();
        assert_eq!(got, want, "input {:?}", s);
    }
}

#[test]
fn characters_round_trip() {
    let s = "a\u{df}\u{1F600} z";
    let v = chars_of(s);
    assert_eq!(v, vec!['a', '\u{df}', '\u{1F600}', ' ', 'z']);
    assert_eq!(string_of(&v), s);
    assert_eq!(string_of(&piece(&v, 1, 3)), "\u{df}\u{1F600}");
    assert_eq!(piece(&v, 2, 2), vec![]);
}

#[test]
fn text_helpers_find_what_is_there() {
    let v = chars_of("  12: a as b as c");
    assert_eq!(scan_run(&v, 0, CharClass::Space), 2);
    assert_eq!(scan_run(&v, 2, CharClass::Digit), 4);
    assert_eq!(scan_run(&v, 2, CharClass::Space), 2);
    assert_eq!(scan_run(&v, 0, CharClass::NotColon), 4);
    assert_eq!(scan_run(&v, 5, CharClass::NotColon), v.len());
    let pat = chars_of(" as ");
    assert_eq!(find_text(&v, &pat, 0), 7);
    assert_eq!(find_text(&v, &pat, 8), 12);
    assert_eq!(find_text(&v, &pat, 13), v.len());
    assert!(has_prefix_at(&v, 7, &pat));
    assert!(!has_prefix_at(&v, 6, &pat));
    assert!(!has_prefix_at(&v, v.len() - 2, &pat));
    assert!(has_prefix_at(&v, v.len(), &chars_of("")));
    assert!(same_text(&chars_of("abc"), &chars_of("abc")));
    assert!(!same_text(&chars_of("abc"), &chars_of("abd")));
    assert!(!same_text(&chars_of("abc"), &chars_of("ab")));
}
