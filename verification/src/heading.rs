//! Per-target labels: relative or absolute headings, the current-directory
//! indicator, optional color, and the ruled separator line.
use vstd::prelude::*;

verus! {

/// How a target's heading is separated from the command's output.
#[derive(Clone, Copy, PartialEq, Eq, Structural, Debug)]
pub enum HeadingStyle {
    Plain,
    Rule,
}

/// When headings are colored.
#[derive(Clone, Copy, PartialEq, Eq, Structural, Debug)]
pub enum ColorMode {
    Auto,
    Always,
    Never,
}

/// The relative route from `base` to `path`, as the path-difference routine
/// computes it from the two paths alone; `None` when no route exists.
pub uninterp spec fn rel_path_of(path: Seq<char>, base: Seq<char>) -> Option<Seq<char>>;

/// Relies on pathdiff::diff_paths: the relative path from `base` to `path`,
/// a pure function of the two arguments; its source yields the empty route
/// when the two paths are equal.
#[verifier::external_body]
fn relative_path(path: &String, base: &String) -> (r: Option<String>)
    ensures
        r.deep_view() == rel_path_of(path@, base@),
        path@ == base@ ==> r.deep_view() == Some(Seq::<char>::empty()),
{
    match pathdiff::diff_paths(path.as_str(), base.as_str()) {
        Some(p) => Some(p.to_string_lossy().into_owned()),
        None => None,
    }
}

/// The current-directory indicator.
pub open spec fn dot_slash() -> Seq<char> {
    seq!['.', '/']
}

/// The heading rendered for `path` against the resolution root: in absolute
/// mode the canonical form (or the raw path when none could be computed), in
/// relative mode the relative route, the root itself rendering as the
/// current-directory indicator; always with a trailing separator.
pub open spec fn heading_view(
    path: Seq<char>,
    root: Seq<char>,
    absolute: bool,
    canon: Option<Seq<char>>,
) -> Seq<char> {
    if absolute {
        match canon {
            Option::Some(c) => c.push('/'),
            Option::None => path.push('/'),
        }
    } else {
        match rel_path_of(path, root) {
            Option::Some(rel) => if rel.len() == 0 {
                dot_slash()
            } else {
                rel.push('/')
            },
            Option::None => path.push('/'),
        }
    }
}

/// Exactly the cases in which the rendered heading is the current-directory
/// indicator: the relative route is empty or the lone dot, or no route
/// exists and the raw path is the lone dot.
pub open spec fn is_dot_rendering(path: Seq<char>, root: Seq<char>) -> bool {
    match rel_path_of(path, root) {
        Option::Some(rel) => rel.len() == 0 || rel == seq!['.'],
        Option::None => path == seq!['.'],
    }
}

/// Appends the trailing separator.
fn with_sep(s: String) -> (r: String)
    ensures
        r@ == s@.push('/'),
{
    let ghost orig = s@;
    let mut r = s;
    proof {
        reveal_strlit("/");
    }
    r.append("/");
    proof {
        assert(r@ =~= orig.push('/'));
    }
    r
}

/// Renders the label of one target. `canon` is the canonicalized form of
/// `path` when absolute mode is on and one could be computed; it is ignored
/// in relative mode.
pub fn heading_for(path: &String, root_for_rel: &String, absolute: bool, canon: Option<String>) -> (r:
    String)
    ensures
        r@ == heading_view(path@, root_for_rel@, absolute, canon.deep_view()),
        !absolute && path@ == root_for_rel@ ==> r@ == dot_slash(),
        !absolute ==> (r@ == dot_slash() <==> is_dot_rendering(path@, root_for_rel@)),
{
    proof {
        reveal_strlit("./");
        assert("./"@ =~= dot_slash());
    }
    if absolute {
        let base = match canon {
            Some(c) => c,
            None => path.clone(),
        };
        let r = with_sep(base);
        proof {
            lemma_push_sep_dot(r@);
        }
        r
    } else {
        match relative_path(path, root_for_rel) {
            Some(rel) => {
                if rel.as_str().unicode_len() == 0 {
                    String::from_str("./")
                } else {
                    let r = with_sep(rel);
                    proof {
                        lemma_push_sep_dot(r@);
                    }
                    r
                }
            },
            None => {
                let r = with_sep(path.clone());
                proof {
                    lemma_push_sep_dot(r@);
                }
                r
            },
        }
    }
}

/// A pushed separator yields the indicator exactly when what precedes it is
/// the lone dot.
proof fn lemma_push_sep_dot(r: Seq<char>)
    ensures
        forall|s: Seq<char>|
            #[trigger] s.push('/') == r && r == dot_slash() ==> s == seq!['.'],
        forall|s: Seq<char>| s == seq!['.'] && #[trigger] s.push('/') == r ==> r == dot_slash(),
{
    assert forall|s: Seq<char>| #[trigger] s.push('/') == r && r == dot_slash() implies s
        == seq!['.'] by {
        assert(dot_slash().len() == 2);
        assert(s.push('/').len() == s.len() + 1);
        assert(s.len() == 1);
        assert(s.push('/')[0] == s[0]);
        assert(s =~= seq!['.']);
    }
    assert forall|s: Seq<char>| s == seq!['.'] && #[trigger] s.push('/') == r implies r
        == dot_slash() by {
        assert(s.push('/') =~= dot_slash());
    }
}

/// ANSI prefix that starts the heading color.
pub open spec fn color_prefix() -> Seq<char> {
    seq!['\u{1b}', '[', '1', ';', '3', '6', 'm']
}

/// ANSI suffix that resets the color.
pub open spec fn color_reset() -> Seq<char> {
    seq!['\u{1b}', '[', '0', 'm']
}

/// `s` as printed: wrapped in the color escapes when color is on, untouched
/// otherwise.
pub open spec fn colorized(s: Seq<char>, color: bool) -> Seq<char> {
    if color {
        color_prefix() + s + color_reset()
    } else {
        s
    }
}

/// Wraps a label in the heading color when color is on.
pub fn colorize(s: &str, color: bool) -> (r: String)
    ensures
        r@ == colorized(s@, color),
{
    if color {
        let mut r = String::from_str("\x1b[1;36m");
        proof {
            reveal_strlit("\x1b[1;36m");
            assert(r@ =~= color_prefix());
        }
        r.append(s);
        r.append("\x1b[0m");
        proof {
            reveal_strlit("\x1b[0m");
            assert(r@ =~= color_prefix() + s@ + color_reset());
        }
        r
    } else {
        String::from_str(s)
    }
}

/// Whether headings are colored: always, never, or — in automatic mode —
/// exactly when standard output is a terminal and no environment opt-out is
/// set.
pub fn use_color(mode: ColorMode, stdout_is_tty: bool, no_color_env: bool) -> (r: bool)
    ensures
        mode == ColorMode::Always ==> r,
        mode == ColorMode::Never ==> !r,
        mode == ColorMode::Auto ==> r == (stdout_is_tty && !no_color_env),
{
    match mode {
        ColorMode::Always => true,
        ColorMode::Never => false,
        ColorMode::Auto => stdout_is_tty && !no_color_env,
    }
}

/// Relies on terminal_size::terminal_size: the width of the attached
/// terminal, if any. The outcome depends on the machine, so nothing is
/// assumed of it.
#[verifier::external_body]
fn detected_terminal_width() -> (r: Option<u16>)
{
    match terminal_size::terminal_size() {
        Some((terminal_size::Width(w), _)) => Some(w),
        None => None,
    }
}

/// The rule width actually used: the detected width clamped to sane bounds,
/// or the conventional default when none was detected.
pub open spec fn clamped_width(detected: Option<u16>) -> int {
    match detected {
        Option::Some(w) => if w < 20 {
            20
        } else if w > 200 {
            200
        } else {
            w as int
        },
        Option::None => 80,
    }
}

/// Clamps a detected terminal width to the rule bounds.
pub fn fence_width(detected: Option<u16>) -> (w: usize)
    ensures
        w == clamped_width(detected),
        20 <= w <= 200,
{
    match detected {
        Some(d) => {
            if d < 20 {
                20
            } else if d > 200 {
                200
            } else {
                d as usize
            }
        },
        None => 80,
    }
}

/// A run of `w` rule characters.
pub open spec fn dashes(w: int) -> Seq<char> {
    Seq::new(w as nat, |i: int| '-')
}

/// The horizontal rule of the given width, colored like a heading.
pub fn fence_line(width: usize, color: bool) -> (r: String)
    ensures
        r@ == colorized(dashes(width as int), color),
{
    let mut s = String::new();
    proof {
        assert(s@ =~= dashes(0));
    }
    let mut i: usize = 0;
    while i < width
        invariant
            i <= width,
            s@ == dashes(i as int),
        decreases width - i,
    {
        proof {
            reveal_strlit("-");
        }
        s.append("-");
        proof {
            assert(s@ =~= dashes(i + 1));
        }
        i = i + 1;
    }
    colorize(s.as_str(), color)
}

/// The separator printed after a target's run: nothing in plain style, a
/// rule sized to the terminal (clamped, defaulting when undetectable) in
/// ruled style.
pub fn fence_text(style: HeadingStyle, color: bool) -> (r: Option<String>)
    ensures
        style == HeadingStyle::Plain ==> r is None,
        style == HeadingStyle::Rule ==> (r matches Some(s) && exists|w: int|
            20 <= w <= 200 && s@ == colorized(dashes(w), color)),
{
    match style {
        HeadingStyle::Plain => None,
        HeadingStyle::Rule => {
            let detected = detected_terminal_width();
            let w = fence_width(detected);
            let line = fence_line(w, color);
            proof {
                assert(20 <= w as int <= 200 && line@ == colorized(dashes(w as int), color));
            }
            Some(line)
        },
    }
}

} // verus!
