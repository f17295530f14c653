//! Time, and what was observed in it.

use intentionality::aw::{base_url, buckets_url, events_url, find_buckets, need_window, AwEvent, Bucket};
use intentionality::json;
use intentionality::observed::{
    cap_titles, merge_spans, summarize, Events, Observed, Span, Tally, MAX_TITLES_PER_APP, OTHER,
};
use intentionality::recommendations::{catalog, get, menu, resolve};
use intentionality::text;
use intentionality::time::{check_day, is_earlier, now, parse_ts, Stamp};

#[test]
fn stamps_are_read_in_either_form() {
    let at = |s: &str| parse_ts(s).unwrap();
    assert_eq!(at("1970-01-01T00:00:01.500+00:00"), Stamp { secs: 1, nanos: 500_000_000 });
    assert_eq!(at("1970-01-01T01:00:00+01:00").secs, 0);
    assert_eq!(at("1970-01-02T00:00:00Z").secs, 86_400);
    assert_eq!(at("1970-01-01T00:00:02").secs, 2);
    assert_eq!(parse_ts("noon").unwrap_err().message(), "bad timestamp: noon");
    let s = now();
    assert_eq!(s.len(), 25);
    assert!(s.ends_with("+00:00"));
    let read = parse_ts(&s).unwrap();
    assert_eq!(read.nanos, 0);
    assert!(read.secs > 1_700_000_000);
    assert!(is_earlier(Stamp { secs: 0, nanos: 9 }, Stamp { secs: 1, nanos: 0 }));
}

#[test]
fn a_due_date_is_a_real_day_in_full() {
    for good in ["2026-02-28", "2024-02-29", "0001-01-01"] {
        assert!(check_day(good), "{good}");
    }
    for bad in ["2026-02-29", "2026-2-8", "2026-02-28 ", "20260228", "tomorrow", ""] {
        assert!(!check_day(bad), "{bad}");
    }
}

#[test]
fn text_is_handled_as_the_library_of_the_language_does() {
    for s in ["", " a  b ", "é\u{3000}x\n", "\u{85}\u{a0}", "tab\tx", "a,b,,c"] {
        assert_eq!(text::trim(s), s.trim());
        assert_eq!(text::trim_start(s), s.trim_start());
        assert_eq!(text::trim_end(s), s.trim_end());
        assert_eq!(
            text::split_words(&s.chars().collect()),
            s.split_whitespace().collect::<Vec<_>>()
        );
        assert_eq!(text::replace(s, "a", "bb"), s.replace('a', "bb"));
        assert_eq!(text::contains(s, "b"), s.contains('b'));
        assert_eq!(text::starts_with(s, " a"), s.starts_with(" a"));
        assert_eq!(text::ends_with(s, "c"), s.ends_with('c'));
        for t in ["", "b", " a"] {
            assert_eq!(text::is_before(s, t), s < t);
        }
    }
    assert_eq!(text::replace("aaa", "aa", "b"), "ba");
    assert_eq!(text::of_i64(i64::MIN), i64::MIN.to_string());
    for s in ["7", "-7", "+7", "007", "", "-", "9223372036854775808", " 7"] {
        assert_eq!(text::parse_i64(s), s.parse::<i64>().ok(), "{s:?}");
    }
    for n in 0..0x3100u32 {
        let c = char::from_u32(n).unwrap();
        assert_eq!(text::is_white(c), c.is_whitespace(), "{n:x}");
        assert_eq!(text::is_control(c), c.is_control(), "{n:x}");
    }
}

#[test]
fn a_recommendation_is_always_one_of_the_catalog() {
    let all = catalog();
    for r in &all {
        assert_eq!(resolve(r.id).id, r.id);
    }
    let fallback = resolve("made up");
    assert!(all.iter().any(|r| r.id == fallback.id));
}

#[test]
fn buckets_are_found_by_their_kind() {
    let bucket = |id: &str, kind: &str| Bucket { id: id.to_string(), kind: kind.to_string() };
    let all = vec![bucket("w", "currentwindow"), bucket("a", "afkstatus"), bucket("x", "web")];
    let (w, a) = find_buckets(&all);
    assert_eq!((w.as_deref(), a.as_deref()), (Some("w"), Some("a")));
    assert_eq!(need_window(w).unwrap(), "w");
    assert_eq!(
        need_window(None).unwrap_err().message(),
        "ActivityWatch not reachable: no window-watcher bucket"
    );
    let base = base_url(None);
    assert_eq!(base, "http://localhost:5600");
    assert_eq!(base_url(Some("u")), "u");
    assert_eq!(buckets_url("u"), "u/api/0/buckets/");
    assert_eq!(events_url("u", "b"), "u/api/0/buckets/b/events");
}

fn span(a: i64, b: i64) -> Span {
    Span { start: Stamp { secs: a, nanos: 0 }, end: Stamp { secs: b, nanos: 0 } }
}

#[test]
fn touching_spans_are_one() {
    let got: Vec<(i64, i64)> =
        merge_spans(vec![span(8, 9), span(0, 2), span(1, 3), span(3, 4), span(6, 7)])
            .into_iter()
            .map(|s| (s.start.secs, s.end.secs))
            .collect();
    assert_eq!(got, [(0, 4), (6, 7), (8, 9)]);
}

#[test]
fn the_titles_beyond_the_cap_are_lumped() {
    let titles = |n: u128| -> Vec<Tally> {
        (0..n).map(|i| Tally { name: format!("t{i:02}"), ms: 100 - i }).collect()
    };
    let got = cap_titles(titles(4), 2);
    let shown: Vec<(&str, u128)> = got.iter().map(|t| (t.name.as_str(), t.ms)).collect();
    assert_eq!(shown, [(OTHER, 98 + 97), ("t00", 100), ("t01", 99)]);
    assert_eq!(cap_titles(titles(3), MAX_TITLES_PER_APP).len(), 3);
}

fn event(timestamp: &str, duration_ms: i64, data: &str) -> AwEvent {
    AwEvent {
        timestamp: timestamp.to_string(),
        duration_ms,
        data: json::parse(data).unwrap(),
    }
}

fn shown(o: &Observed) -> Vec<(&str, u128)> {
    o.per_app.iter().map(|t| (t.name.as_str(), t.ms)).collect()
}

#[test]
fn time_away_is_taken_off_and_everything_is_clipped() {
    let events = Events {
        window: vec![
            // From a minute before the stretch to a minute into it.
            event("2026-01-01T09:59:00Z", 120_000, r#"{"app": "vim", "title": "a.rs"}"#),
            // A minute and a half, of which the second minute's half was away.
            event("2026-01-01T10:01:00Z", 90_000, r#"{"app": "vim", "title": "b.rs"}"#),
            event("2026-01-01T10:02:30Z", 30_000, r#"{"app": "web"}"#),
            event("2026-01-01T11:00:00Z", 30_000, r#"{"app": "late", "title": "x"}"#),
        ],
        afk: vec![
            event("2026-01-01T10:02:00Z", 30_000, r#"{"status": "afk"}"#),
            event("2026-01-01T10:02:10Z", 20_000, r#"{"status": "afk"}"#),
            event("2026-01-01T10:00:00Z", 60_000, r#"{"status": "not-afk"}"#),
        ],
    };
    let o = summarize(&events, "2026-01-01T10:00:00Z", "2026-01-01T10:03:00Z").unwrap();
    assert_eq!(shown(&o), [("vim", 120_000), ("web", 30_000)]);
    assert_eq!((o.active_ms, o.afk_ms), (150_000, 30_000));
    let vim: Vec<(&str, u128)> =
        o.per_title[0].titles.iter().map(|t| (t.name.as_str(), t.ms)).collect();
    assert_eq!(vim, [("a.rs", 60_000), ("b.rs", 60_000)]);
    assert_eq!(o.per_title[1].titles[0].name, "unknown");
}

#[test]
fn a_summary_needs_readable_times() {
    let none = || Events { window: vec![], afk: vec![] };
    assert!(summarize(&none(), "x", "2026-01-01T10:03:00Z").is_err());
    assert!(summarize(&none(), "2026-01-01T10:03:00Z", "y").is_err());
    let odd = Events { window: vec![event("when", 1, "{}")], afk: vec![] };
    assert_eq!(
        summarize(&odd, "2026-01-01T10:00:00Z", "2026-01-01T10:03:00Z").unwrap_err().message(),
        "bad timestamp: when"
    );
}

#[test]
fn stamps_and_days_sort_as_text() {
    let mut stamps =
        ["2026-01-10T00:00:00+00:00", "2025-12-31T23:59:59+00:00", "2026-01-09T23:59:59+00:00"];
    stamps.sort();
    for pair in stamps.windows(2) {
        assert!(is_earlier(parse_ts(pair[0]).unwrap(), parse_ts(pair[1]).unwrap()));
    }
}

#[test]
fn a_leap_second_is_a_second_long() {
    let spent = |at: &str, ms: i64, start: &str, end: &str| {
        let events = Events { window: vec![event(at, ms, "{}")], afk: vec![] };
        summarize(&events, start, end).unwrap().active_ms
    };
    let (start, end) = ("2026-01-01T10:00:00Z", "2026-01-01T10:02:00Z");
    // Within it, out of it, and out of it by less than a second.
    assert_eq!(spent("2026-01-01T10:00:60Z", 500, start, end), 500);
    assert_eq!(spent("2026-01-01T10:00:60Z", 1500, start, end), 1500);
    assert_eq!(spent("2026-01-01T10:00:60.700Z", 300, start, end), 300);
    // Up to it, and from it.
    let leap = "2026-01-01T10:00:60.500Z";
    assert_eq!(spent("2026-01-01T10:00:59Z", 9000, start, leap), 1500);
    assert_eq!(spent("2026-01-01T10:00:59Z", 3000, leap, end), 2500);
    assert_eq!(spent("2026-01-01T10:00:59Z", -3000, start, end), 0);
}

#[test]
fn stretches_that_adjoin_add_up() {
    let events = Events {
        window: vec![
            event("2026-01-01T10:00:00.250Z", 90_000, "{\"app\":\"vim\",\"title\":\"a\"}"),
            event("2026-01-01T10:01:10Z", 60_001, "{\"app\":\"web\"}"),
            event("2026-01-01T10:02:00Z", 45_000, "{\"app\":\"vim\"}"),
        ],
        afk: vec![
            event("2026-01-01T10:00:50Z", 30_000, "{\"status\":\"afk\"}"),
            event("2026-01-01T10:01:10Z", 20_000, "{\"status\":\"afk\"}"),
            event("2026-01-01T10:02:00Z", 60_000, "{\"status\":\"not-afk\"}"),
        ],
    };
    let (a, c) = ("2026-01-01T10:00:00Z", "2026-01-01T10:03:00Z");
    let held = |o: &Observed, app: &str| {
        o.per_app.iter().find(|t| t.name == app).map_or(0, |t| t.ms)
    };
    let whole = summarize(&events, a, c).unwrap();
    assert_eq!((whole.afk_ms, whole.active_ms), (40_000, 50_000 + 40_001 + 45_000));
    for b in [a, "2026-01-01T10:00:55.123Z", "2026-01-01T10:01:15Z", "2026-01-01T10:02:10Z", c] {
        let (left, right) = (summarize(&events, a, b).unwrap(), summarize(&events, b, c).unwrap());
        assert_eq!(left.afk_ms + right.afk_ms, whole.afk_ms, "{b}");
        assert_eq!(left.active_ms + right.active_ms, whole.active_ms, "{b}");
        for app in ["vim", "web", "none"] {
            assert_eq!(held(&left, app) + held(&right, app), held(&whole, app), "{b} {app}");
        }
        for o in [&left, &right] {
            assert!(o.per_app.iter().all(|t| t.ms > 0));
            assert!(o.afk_ms >= 0);
        }
    }
}

#[test]
fn an_application_shows_fifteen_titles_and_the_rest_as_one() {
    let window: Vec<AwEvent> = (0..40)
        .map(|i| {
            let data = format!("{{\"app\":\"web\",\"title\":\"t{i}\"}}");
            event("2026-01-01T10:00:00Z", 1000 + i, &data)
        })
        .collect();
    let o = summarize(
        &Events { window, afk: vec![] },
        "2026-01-01T10:00:00Z",
        "2026-01-01T11:00:00Z",
    )
    .unwrap();
    let titles = &o.per_title[0].titles;
    assert_eq!(titles.len(), MAX_TITLES_PER_APP + 1);
    assert!(titles.iter().any(|t| t.name == OTHER));
    assert_eq!(titles.iter().map(|t| t.ms).sum::<u128>(), o.active_ms);
}

#[test]
fn the_menu_is_the_catalog() {
    let shown = menu();
    let lines: Vec<&str> = shown.split('\n').collect();
    let ids =
        ["reset_break", "pick_one", "shrink_scope", "wrap_up", "keep_going", "stop_for_today"];
    assert_eq!(lines.len(), 6);
    for ((line, entry), id) in lines.iter().zip(catalog()).zip(ids) {
        assert_eq!(entry.id, id);
        assert_eq!(*line, format!("- {}: {}", entry.id, entry.advice));
        assert_eq!(resolve(id).advice, entry.advice);
        assert_eq!(get(id).unwrap().id, id);
    }
    assert!(!shown.contains("quiet_window"));
}
