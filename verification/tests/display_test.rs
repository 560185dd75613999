use bl::board::{board, color_on, header, panels, render, Opts, Tile};
use bl::card::Card;
use bl::layout::{pad, term_width, truncate, width_of, wrap};
use bl::links::{Rel, Role};
use bl::paint::{heat, status_color, strip_ansi_len, Paint};
use bl::print::{blockers_of, print_card, print_project, waiting};
use bl::project::Project;
use bl::status::Status;

const T0: &str = "2026-01-01 00:00:00";

fn card(id: i64, title: &str) -> Card {
    Card {
        id,
        title: title.to_string(),
        notes: String::new(),
        label: String::new(),
        status: Status::New,
        priority: 5000,
        outcome: String::new(),
        claimed_by: String::new(),
        claimed_at: String::new(),
        commits: String::new(),
        created_at: T0.to_string(),
        updated_at: T0.to_string(),
        project_id: 1,
        project: "p".to_string(),
        legacy_id: None,
        entries: Vec::new(),
    }
}

fn tile(card: Card) -> Tile {
    Tile { card, wait: String::new() }
}

fn opts() -> Opts {
    Opts { label: None, done: 8, width: Some(80), watch: None, color: true, show_project: false }
}

// ------------------------------------------------------------- color and layout

#[test]
fn heat_follows_the_float_formula() {
    for priority in -50..=10050 {
        let t = (priority as f32 / 10000.0).clamp(0.0, 1.0);
        let mix = |cold: f32, hot: f32| (cold + (hot - cold) * t) as u8;
        assert_eq!(heat(priority), (mix(124.0, 184.0), mix(147.0, 69.0), mix(160.0, 47.0)), "{}", priority);
    }
    assert_eq!(heat(i32::MIN), (124, 147, 160));
    assert_eq!(heat(i32::MAX), (184, 69, 47));
}

#[test]
fn paint_is_closed_and_can_be_off() {
    let on = Paint { on: true };
    let off = Paint { on: false };
    assert_eq!(on.rgb("x", (1, 20, 255)), "\x1b[38;2;1;20;255mx\x1b[0m");
    assert_eq!(on.dim("x"), "\x1b[2mx\x1b[0m");
    assert_eq!(on.bold("x"), "\x1b[1mx\x1b[0m");
    assert_eq!((off.rgb("x", (1, 2, 3)), off.dim("x"), off.bold("x")), ("x".into(), "x".into(), "x".into()));
    assert_eq!(status_color(Status::Ready), (79, 191, 169));
}

#[test]
fn paint_does_not_change_the_width() {
    let on = Paint { on: true };
    for s in ["", "plain", "日本語"] {
        let n = s.chars().count();
        assert_eq!(strip_ansi_len(s), n);
        assert_eq!(strip_ansi_len(&on.rgb(s, (255, 0, 10))), n);
        assert_eq!(strip_ansi_len(&on.dim(s)), n);
        assert_eq!(strip_ansi_len(&on.bold(s)), n);
    }
    assert_eq!(strip_ansi_len("a\x1b[2"), 1);
}

#[test]
fn texts_are_cut_and_filled_up() {
    assert_eq!(truncate("abcdef", 6), "abcdef");
    assert_eq!(truncate("abcdef", 4), "abc…");
    assert_eq!(truncate("abcdef", 0), "…");
    assert_eq!(pad("ab", 4), "ab  ");
    assert_eq!(pad("abcde", 4), "abcde");
    assert_eq!(width_of("日本"), 2);
    assert_eq!(width_of(&pad(&truncate("a long text", 6), 6)), 6);
}

#[test]
fn words_are_wrapped_within_the_lines() {
    assert_eq!(wrap("one two three", 7, 2), vec!["one two", "three"]);
    assert_eq!(wrap("one two three four", 7, 2), vec!["one two", "three…"]);
    assert_eq!(wrap("incomprehensibilities", 8, 2), vec!["incompr…"]);
    assert_eq!(wrap("", 8, 2), Vec::<String>::new());
    for line in wrap("a quick brown fox jumps over the lazy dog", 10, 2) {
        assert!(line.chars().count() <= 10);
    }
}

#[test]
fn the_terminal_says_how_wide_it_is() {
    assert_eq!(term_width(Some("132"), Some("24 80")), 132);
    assert_eq!(term_width(Some("wide"), Some("24 80")), 80);
    assert_eq!(term_width(None, Some("24 0")), 100);
    assert_eq!(term_width(None, Some("")), 100);
    assert_eq!(term_width(None, None), 100);
}

// ------------------------------------------------------------- cards in print

#[test]
fn a_card_is_told_in_full() {
    let c = Card {
        label: "art,ui".to_string(),
        status: Status::InProgress,
        notes: "one\ntwo".to_string(),
        outcome: "a\nb".to_string(),
        claimed_by: "ann".to_string(),
        claimed_at: T0.to_string(),
        commits: "a1b2c3d\tFix\n \nbare".to_string(),
        legacy_id: Some(9),
        ..card(12, "Hero pose")
    };
    let rels = vec![Rel {
        rel: Role::BlockedBy,
        id: 3,
        title: "First".to_string(),
        status: Status::New,
    }];
    assert_eq!(
        print_card(&c, &rels, true),
        vec![
            "#12  [ 5000]  in_progress   p: [art,ui] Hero pose  claimed_by=ann",
            "    notes: one | two",
            "    outcome: a | b",
            "    claimed_at: 2026-01-01 00:00:00",
            "    imported: was #9 in p's own backlog.db",
            "    blocked by: #3 First (new)",
            "    commit: a1b2c3d Fix",
            "    commit: bare ",
            "    created: 2026-01-01 00:00:00   updated: 2026-01-01 00:00:00",
        ]
    );
    assert_eq!(
        print_card(&card(1, "x"), &Vec::new(), false),
        vec![
            "#1  [ 5000]  new           x",
            "    created: 2026-01-01 00:00:00   updated: 2026-01-01 00:00:00",
        ]
    );
}

#[test]
fn what_a_card_waits_on_is_said() {
    let rel = |rel: Role, id: i64, status: Status| Rel { rel, id, title: String::new(), status };
    let all = vec![
        rel(Role::BlockedBy, 3, Status::New),
        rel(Role::BlockedBy, 4, Status::Done),
        rel(Role::Blocks, 5, Status::New),
        rel(Role::BlockedBy, 6, Status::InProgress),
    ];
    assert_eq!(waiting(&all), "blocked by #3, #6");
    assert_eq!(blockers_of(&all).len(), 2);
    assert_eq!(waiting(&Vec::new()), "");
}

#[test]
fn a_project_is_told_on_one_line() {
    let p = Project {
        id: 3,
        name: "foo".to_string(),
        path: "/git/foo".to_string(),
        active: false,
        autoexport: String::new(),
        created_at: String::new(),
    };
    assert_eq!(
        print_project(&p, 2, 11, true),
        format!("#{:<3} {} {:<24} {:>4} open / {:<4} {}{}", 3, "inactive", "foo", 2, 11, "/git/foo", "  (here)")
    );
    let q = Project { active: true, ..p };
    assert_eq!(
        print_project(&q, 2, 11, false),
        format!("#{:<3} {} {:<24} {:>4} open / {:<4} {}{}", 3, "active  ", "foo", 2, 11, "/git/foo", "")
    );
}

// ------------------------------------------------------------- the board

#[test]
fn the_header_sums_up() {
    let ts = vec![
        tile(Card { priority: 100, ..card(1, "a") }),
        tile(Card { priority: 201, status: Status::InProgress, claimed_by: "zoe".to_string(), ..card(2, "b") }),
        tile(Card { status: Status::InProgress, priority: 0, claimed_by: "ann".to_string(), ..card(3, "c") }),
        tile(Card { status: Status::Done, ..card(4, "d") }),
    ];
    let off = Paint { on: false };
    assert_eq!(
        header("/x/backlog.db", &ts, &off, 40, Some("art")),
        format!(
            "bl/board  /x/backlog.db\n3 open  ·  2 in progress (ann, zoe)  ·  avg priority 100  ·  1 done  ·  label=art\n{}\n",
            "─".repeat(40)
        )
    );
    assert!(header("x", &Vec::new(), &off, 40, None)
        .contains("0 open  ·  0 in progress  ·  avg priority 0  ·  0 done\n"));
}

#[test]
fn the_panels_count_labels_and_priorities() {
    let ts = vec![
        tile(Card { label: "art".to_string(), priority: 0, ..card(1, "a") }),
        tile(Card { label: "art".to_string(), priority: 499, ..card(2, "b") }),
        tile(Card { priority: 10000, ..card(3, "c") }),
        tile(Card { status: Status::Done, label: "ui".to_string(), ..card(4, "d") }),
    ];
    let off = Paint { on: false };
    let mut spark = String::from("█");
    spark.push_str(&"·".repeat(18));
    spark.push('▅');
    assert_eq!(
        panels(&ts, &off, 44),
        format!(
            "OPEN BY LABEL\n  art          {} 2\n  (none)       {}{} 1\n\nOPEN PRIORITY  {}\n               0            5000          10000\n",
            "█".repeat(24),
            "█".repeat(12),
            "·".repeat(12),
            spark
        )
    );
    assert!(panels(&Vec::new(), &off, 44).contains("  nothing open\n"));
}

#[test]
fn the_columns_stand_side_by_side() {
    let ts = vec![
        tile(Card { label: "art".to_string(), ..card(1, "Hero pose") }),
        Tile {
            card: Card {
                status: Status::InProgress,
                claimed_by: "ann".to_string(),
                commits: "a1b2c3d\tFix".to_string(),
                ..card(2, "Held")
            },
            wait: "blocked by #1".to_string(),
        },
    ];
    let off = Paint { on: false };
    let line = "─".repeat(18);
    let expected = [
        format!("{:14}{:>4}  {:14}{:>4}  {:14}{:>4}  {:14}{:>4}", "NEW", 1, "READY", 0, "IN PROGRESS", 1, "DONE", 0),
        format!("{}  {}  {}  {}", line, line, line, line),
        format!("{:18}  {:18}  {:18}  —", "#1 art       5000", "—", "#2           5000"),
        format!("{:18}  {:18}  p", "p", ""),
        format!("{:18}  {:18}  Held", "Hero pose", ""),
        format!("{:18}  {:18}  @ann", "", ""),
        format!("{:18}  {:18}  blocked by #1", "", ""),
        format!("{:18}  {:18}  a1b2c3d Fix", "", ""),
        String::new(),
    ];
    let text = board(&ts, &off, 80, 8, true);
    assert_eq!(text.lines().map(|l| l.to_string()).collect::<Vec<_>>(), expected);
}

fn unpainted(s: &str) -> String {
    let mut out = String::new();
    let mut inside = false;
    for c in s.chars() {
        if inside {
            inside = c != 'm';
        } else if c == '\x1b' {
            inside = true;
        } else {
            out.push(c);
        }
    }
    out
}

fn painted_tiles() -> Vec<Tile> {
    vec![
        tile(Card { label: "art".to_string(), ..card(1, "Hero pose") }),
        Tile {
            card: Card {
                status: Status::InProgress,
                claimed_by: "ann".to_string(),
                commits: "a1b2c3d\tFix\n\nb2c3d4e".to_string(),
                ..card(2, "A title that is much too long\nto stand on two lines of the board")
            },
            wait: "blocked by #1".to_string(),
        },
        tile(Card { status: Status::Done, priority: 9999, ..card(3, "Done") }),
    ]
}

#[test]
fn painted_columns_stay_aligned() {
    let ts = painted_tiles();
    let plain = board(&ts, &Paint { on: false }, 80, 0, true);
    let painted = board(&ts, &Paint { on: true }, 80, 0, true);
    assert!(painted.contains('\x1b'));
    let tidy: String = unpainted(&painted).lines().map(|l| format!("{}\n", l.trim_end())).collect();
    assert_eq!(tidy, plain);
}

#[test]
fn the_painted_top_is_the_plain_one() {
    let ts = painted_tiles();
    let (on, off) = (Paint { on: true }, Paint { on: false });
    let head = header("store", &ts, &on, 80, Some("art"));
    assert!(head.contains('\x1b'));
    assert_eq!(unpainted(&head), header("store", &ts, &off, 80, Some("art")));
    assert_eq!(unpainted(&panels(&ts, &on, 80)), panels(&ts, &off, 80));
}

#[test]
fn only_the_newest_done_cards_are_shown() {
    let done = |id: i64, at: &str| tile(Card { status: Status::Done, updated_at: at.to_string(), ..card(id, "t") });
    let ts = vec![done(1, "1"), done(2, "3"), done(3, "2")];
    let text = board(&ts, &Paint { on: false }, 80, 2, false);
    let two = text.find("#2").expect("newest");
    let three = text.find("#3").expect("second");
    assert!(two < three);
    assert!(!text.contains("#1 "));
    assert!(text.contains("1 older hidden"));
}

#[test]
fn a_board_is_drawn_whole() {
    let ts = vec![
        tile(Card { label: "art".to_string(), ..card(1, "Hero pose") }),
        tile(Card { label: "ui,x".to_string(), ..card(2, "Button") }),
    ];
    let one = Opts { label: Some("art".to_string()), ..opts() };
    let text = render("p", &ts, &one, false, 200);
    let kept = vec![tile(Card { label: "art".to_string(), ..card(1, "Hero pose") })];
    let off = Paint { on: false };
    assert_eq!(
        text,
        format!(
            "{}\n{}\n{}",
            header("p", &kept, &off, 80, Some("art")),
            panels(&kept, &off, 80),
            board(&kept, &off, 80, 8, false)
        )
    );
    let tag = Opts { label: Some("x".to_string()), ..opts() };
    assert!(render("p", &ts, &tag, false, 200).contains("Button"));
}

#[test]
fn the_width_is_kept_within_bounds() {
    let rule = |w: Option<usize>, terminal: usize| {
        let o = Opts { width: w, ..opts() };
        render("p", &Vec::new(), &o, false, terminal)
            .lines()
            .nth(2)
            .map(|l| l.chars().count())
    };
    assert_eq!(rule(Some(10), 100), Some(40));
    assert_eq!(rule(Some(1000), 100), Some(240));
    assert_eq!(rule(None, 132), Some(132));
}

#[test]
fn color_needs_a_terminal_and_no_objection() {
    assert!(color_on(&opts(), true, false));
    assert!(!color_on(&opts(), false, false));
    assert!(!color_on(&opts(), true, true));
    assert!(!color_on(&Opts { color: false, ..opts() }, true, false));
}
