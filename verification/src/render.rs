//! The text the tool shows: shortened paths, listing lines, the JSON
//! listing and the shell integration scripts.
use vstd::prelude::*;
use crate::cli::Shell;
use crate::history::{DirEntry, DirEntryView, views};
use crate::text::{
    chars_of, decimal, digits, json_escape, pad_left, pad_right, push_chars, push_decimal, push_escaped,
    push_padded_left, push_padded_right, push_str, string_of,
};
use crate::time::{now, relative_label, relative_time_at, rfc3339, utc_rfc3339, whole_seconds};

verus! {

// ---------------------------------------------------------------------
// Home directory
// ---------------------------------------------------------------------

/// Calls `dirs::home_dir`, then `Path::to_str`: `None` where no home
/// directory is known, `Some(None)` where its path is not valid UTF-8.
/// Nothing is stated of the value: it comes from the environment.
#[verifier::external_body]
fn home_dir_text() -> Option<Option<String>> {
    match dirs::home_dir() {
        Some(home) => Some(home.to_str().map(|s| s.to_string())),
        None => None,
    }
}

/// The home directory that the path shortening reads from what
/// `dirs::home_dir` found: a home whose path is not valid UTF-8 cannot
/// hold a UTF-8 path under it, so it reads as no home at all.
pub open spec fn home_text(found: Option<Option<Seq<char>>>) -> Option<Seq<char>> {
    match found {
        Some(Some(h)) => Some(h),
        _ => None,
    }
}

/// The view of what `dirs::home_dir` found.
pub open spec fn found_text(found: Option<Option<String>>) -> Option<Option<Seq<char>>> {
    match found {
        Some(Some(h)) => Some(Some(h@)),
        Some(None) => Some(None),
        None => None,
    }
}

/// The home directory read from what `dirs::home_dir` found (see `home_text`).
pub fn home_from(found: Option<Option<String>>) -> (r: Option<String>)
    ensures
        opt_text(r) == home_text(found_text(found)),
{
    match found {
        Some(Some(h)) => Some(h),
        _ => None,
    }
}

/// The home directory as the path shortening reads it: none where no home
/// is known or its path is not valid UTF-8.
fn home_dir() -> Option<String> {
    home_from(home_dir_text())
}

/// `path` lies in the directory `home` or below it: it is `home` itself,
/// or it starts with `home` followed by a `/`.
pub open spec fn under_home(path: Seq<char>, home: Seq<char>) -> bool {
    path == home || (home.len() < path.len() && path.take(home.len() as int) == home
        && path[home.len() as int] == '/')
}

/// `path` with its leading `home` replaced by `~` where it lies under the
/// home directory; unchanged where there is no home or it lies elsewhere.
pub open spec fn shorten(path: Seq<char>, home: Option<Seq<char>>) -> Seq<char> {
    match home {
        Some(h) => if under_home(path, h) {
            seq!['~'] + path.skip(h.len() as int)
        } else {
            path
        },
        None => path,
    }
}

/// The view of an optional string.
pub open spec fn opt_text(s: Option<String>) -> Option<Seq<char>> {
    match s {
        Some(t) => Some(t@),
        None => None,
    }
}

fn starts_with(path: &Vec<char>, prefix: &Vec<char>) -> (r: bool)
    ensures
        r == (prefix@.len() <= path@.len() && path@.take(prefix@.len() as int) == prefix@),
{
    if prefix.len() > path.len() {
        return false;
    }
    let mut i: usize = 0;
    while i < prefix.len()
        invariant
            prefix@.len() <= path@.len(),
            i <= prefix.len(),
            forall|k: int| 0 <= k < i ==> path@[k] == prefix@[k],
        decreases prefix.len() - i,
    {
        if path[i] != prefix[i] {
            assert(path@.take(prefix@.len() as int)[i as int] != prefix@[i as int]);
            return false;
        }
        i = i + 1;
    }
    assert(path@.take(prefix@.len() as int) =~= prefix@);
    true
}

/// `path` shortened against the given home directory.
pub fn shorten_path_with(path: &str, home: &Option<String>) -> (s: String)
    ensures
        s@ == shorten(path@, opt_text(*home)),
{
    let cs = chars_of(path);
    match home {
        Some(h) => {
            let hs = chars_of(h.as_str());
            let under = starts_with(&cs, &hs) && (cs.len() == hs.len() || cs[hs.len()] == '/');
            proof {
                if under && cs@.len() == hs@.len() {
                    assert(cs@ =~= hs@);
                }
                if !under && cs@ == hs@ {
                    assert(cs@.take(hs@.len() as int) =~= hs@);
                }
            }
            if under {
                let mut s = String::new();
                push_str(&mut s, "~");
                proof { reveal_strlit("~"); }
                let mut i: usize = hs.len();
                let ghost base = s@;
                while i < cs.len()
                    invariant
                        hs.len() <= i <= cs.len(),
                        base == seq!['~'],
                        s@ == base + cs@.subrange(hs.len() as int, i as int),
                    decreases cs.len() - i,
                {
                    crate::text::push_char(&mut s, cs[i]);
                    assert(cs@.subrange(hs.len() as int, i + 1) == cs@.subrange(hs.len() as int, i as int).push(cs@[i as int]));
                    i = i + 1;
                }
                proof {
                    assert(cs@.subrange(hs.len() as int, cs.len() as int) == cs@.skip(hs.len() as int));
                }
                s
            } else {
                string_of(&cs)
            }
        },
        None => string_of(&cs),
    }
}

/// `path` shortened against the user's home directory.
pub fn shorten_path(path: &str) -> (s: String)
    ensures
        exists|home: Option<Seq<char>>| s@ == shorten(path@, home),
{
    let home = home_dir();
    shorten_path_with(path, &home)
}

// ---------------------------------------------------------------------
// Listing lines
// ---------------------------------------------------------------------

/// The right-hand part of a line: the relative time in ten columns and the
/// visit count in four, right-aligned.
pub open spec fn time_and_count(label: Seq<char>, count: int) -> Seq<char> {
    pad_left(label, 10) + seq![' '] + pad_left(decimal(count), 4)
}

/// A line of the plain listing: the shortened path left-aligned in fifty
/// columns, a space, then the time and count.
pub open spec fn list_row(short: Seq<char>, label: Seq<char>, count: int) -> Seq<char> {
    pad_right(short, 50) + seq![' '] + time_and_count(label, count)
}

/// A line of the picker, `width` columns wide: two spaces, the shortened
/// path padded to what the time and count leave (with two columns to
/// spare), then the time and count.
pub open spec fn picker_row(short: Seq<char>, label: Seq<char>, count: int, width: int) -> Seq<char> {
    let right = time_and_count(label, count);
    let left_width = if width > right.len() + 2 { width - (right.len() + 2) } else { 0 };
    seq![' ', ' '] + pad_right(short, left_width) + right
}

/// Every character of `s` is ASCII, so that its length in characters is
/// also its length in bytes.
pub open spec fn ascii_text(s: Seq<char>) -> bool {
    forall|i: int| 0 <= i < s.len() ==> (#[trigger] s[i] as int) < 128
}

proof fn lemma_digits_ascii(n: nat)
    ensures
        ascii_text(digits(n)),
    decreases n,
{
    if n >= 10 {
        lemma_digits_ascii(n / 10);
        let d = digits(n / 10);
        let s = digits(n);
        assert forall|i: int| 0 <= i < s.len() implies (#[trigger] s[i] as int) < 128 by {
            if i < d.len() {
                assert(s[i] == d[i]);
            }
        }
    }
}

proof fn lemma_decimal_ascii(n: int)
    ensures
        ascii_text(decimal(n)),
{
    if n < 0 {
        lemma_digits_ascii((-n) as nat);
        let d = digits((-n) as nat);
        let s = decimal(n);
        assert forall|i: int| 0 <= i < s.len() implies (#[trigger] s[i] as int) < 128 by {
            if i > 0 {
                assert(s[i] == d[i - 1]);
            }
        }
    } else {
        lemma_digits_ascii(n as nat);
    }
}

proof fn lemma_concat_ascii(a: Seq<char>, b: Seq<char>)
    requires
        ascii_text(a),
        ascii_text(b),
    ensures
        ascii_text(a + b),
{
    assert forall|i: int| 0 <= i < (a + b).len() implies (#[trigger] (a + b)[i] as int) < 128 by {
        if i < a.len() {
            assert((a + b)[i] == a[i]);
        } else {
            assert((a + b)[i] == b[i - a.len()]);
        }
    }
}

proof fn lemma_pad_left_ascii(s: Seq<char>, width: int)
    requires
        ascii_text(s),
    ensures
        ascii_text(pad_left(s, width)),
{
    let sp = crate::text::spaces(width - s.len());
    assert forall|i: int| 0 <= i < sp.len() implies (#[trigger] sp[i] as int) < 128 by {}
    lemma_concat_ascii(sp, s);
}

/// The right-hand part of a line is ASCII, so the character count that
/// `picker_row` subtracts from the width is its byte count too.
pub proof fn lemma_time_and_count_ascii(secs: int, count: int)
    ensures
        ascii_text(time_and_count(relative_label(secs), count)),
{
    let label = relative_label(secs);
    reveal_strlit("just now");
    reveal_strlit("m ago");
    reveal_strlit("h ago");
    reveal_strlit("d ago");
    if secs < 60 {
    } else if secs / 60 < 60 {
        lemma_decimal_ascii(secs / 60);
        lemma_concat_ascii(decimal(secs / 60), "m ago"@);
    } else if secs / 3600 < 24 {
        lemma_decimal_ascii(secs / 3600);
        lemma_concat_ascii(decimal(secs / 3600), "h ago"@);
    } else {
        lemma_decimal_ascii(secs / 86400);
        lemma_concat_ascii(decimal(secs / 86400), "d ago"@);
    }
    assert(ascii_text(label));
    lemma_pad_left_ascii(label, 10);
    lemma_decimal_ascii(count);
    lemma_pad_left_ascii(decimal(count), 4);
    let sp = seq![' '];
    assert(ascii_text(sp));
    lemma_concat_ascii(pad_left(label, 10), sp);
    lemma_concat_ascii(pad_left(label, 10) + sp, pad_left(decimal(count), 4));
}

/// The listing line of entry `e`, seen from `home` at `now`.
pub open spec fn entry_list_row(e: DirEntryView, home: Option<Seq<char>>, now: int) -> Seq<char> {
    list_row(shorten(e.path, home), relative_label(whole_seconds(now, e.last_visited as int)), e.visit_count as int)
}

/// The picker line of entry `e`, seen from `home` at `now`, `width` columns wide.
pub open spec fn entry_picker_row(e: DirEntryView, home: Option<Seq<char>>, now: int, width: int) -> Seq<char> {
    picker_row(shorten(e.path, home), relative_label(whole_seconds(now, e.last_visited as int)), e.visit_count as int, width)
}

fn time_and_count_chars(label: &String, count: i64) -> (v: Vec<char>)
    ensures
        v@ == time_and_count(label@, count as int),
{
    let mut s = String::new();
    let lc = chars_of(label.as_str());
    push_padded_left(&mut s, &lc, 10);
    push_str(&mut s, " ");
    let dc = chars_of(decimal_text(count).as_str());
    push_padded_left(&mut s, &dc, 4);
    proof {
        reveal_strlit(" ");
    }
    chars_of(s.as_str())
}

fn decimal_text(n: i64) -> (s: String)
    ensures
        s@ == decimal(n as int),
{
    crate::text::decimal_string(n)
}

/// The listing line of `e`, seen from `home` at `now`.
pub fn list_line_with(e: &DirEntry, home: &Option<String>, now: i64) -> (s: String)
    ensures
        s@ == entry_list_row(e@, opt_text(*home), now as int),
{
    let short = shorten_path_with(e.path.as_str(), home);
    let label = relative_time_at(now, e.last_visited);
    let sc = chars_of(short.as_str());
    let right = time_and_count_chars(&label, e.visit_count);
    let mut s = String::new();
    push_padded_right(&mut s, &sc, 50);
    push_str(&mut s, " ");
    push_chars(&mut s, &right);
    proof {
        reveal_strlit(" ");
        assert(s@ =~= entry_list_row(e@, opt_text(*home), now as int));
    }
    s
}

/// The listing line of `e`, seen from the user's home at the current instant.
pub fn list_line(e: &DirEntry) -> (s: String)
    ensures
        exists|home: Option<Seq<char>>, t: i64| t >= 0 && s@ == entry_list_row(e@, home, t as int),
{
    let home = home_dir();
    let t = now();
    list_line_with(e, &home, t)
}

/// The picker line of `e`, `width` columns wide, seen from `home` at `now`.
pub fn picker_line_with(e: &DirEntry, home: &Option<String>, now: i64, width: usize) -> (s: String)
    ensures
        s@ == entry_picker_row(e@, opt_text(*home), now as int, width as int),
{
    let short = shorten_path_with(e.path.as_str(), home);
    let label = relative_time_at(now, e.last_visited);
    let sc = chars_of(short.as_str());
    let right = time_and_count_chars(&label, e.visit_count);
    let left_width: usize = if width >= right.len() && width - right.len() > 2 { width - right.len() - 2 } else { 0 };
    let mut s = String::new();
    push_str(&mut s, "  ");
    push_padded_right(&mut s, &sc, left_width);
    push_chars(&mut s, &right);
    proof {
        reveal_strlit("  ");
        assert(s@ =~= entry_picker_row(e@, opt_text(*home), now as int, width as int));
    }
    s
}

/// The picker line of `e`, `width` columns wide, seen from the user's home
/// at the current instant.
pub fn picker_line(e: &DirEntry, width: usize) -> (s: String)
    ensures
        exists|home: Option<Seq<char>>, t: i64| t >= 0 && s@ == entry_picker_row(e@, home, t as int, width as int),
{
    let home = home_dir();
    let t = now();
    picker_line_with(e, &home, t, width)
}

// ---------------------------------------------------------------------
// JSON listing
// ---------------------------------------------------------------------

/// One entry of the JSON listing, on a line of its own, with `stamp` as
/// the text of its last visit.
pub open spec fn json_item(e: DirEntryView, stamp: Seq<char>) -> Seq<char> {
    "\n  {\"path\":\""@ + json_escape(e.path) + "\",\"visit_count\":"@ + decimal(e.visit_count as int)
        + ",\"last_visited\":\""@ + stamp + "\"}"@
}

/// The entries of the JSON listing, separated by commas.
pub open spec fn json_items(es: Seq<DirEntryView>, stamps: Seq<Seq<char>>) -> Seq<char>
    decreases es.len(),
{
    if es.len() == 0 {
        Seq::empty()
    } else if es.len() == 1 {
        json_item(es[0], stamps[0])
    } else {
        json_items(es.drop_last(), stamps.take(es.len() - 1)) + seq![','] + json_item(es.last(), stamps[es.len() - 1])
    }
}

/// The JSON listing with the given texts of the last visits: an array of
/// the entries' path, visit count and last visit, closed on a line of its own.
pub open spec fn json_listing_with(es: Seq<DirEntryView>, stamps: Seq<Seq<char>>) -> Seq<char> {
    seq!['['] + json_items(es, stamps) + seq!['\n', ']']
}

/// The RFC 3339 text of each entry's last visit.
pub open spec fn last_visit_stamps(es: Seq<DirEntryView>) -> Seq<Seq<char>> {
    Seq::new(es.len(), |i: int| utc_rfc3339(es[i].last_visited))
}

/// The JSON listing, the last visits written in RFC 3339.
pub open spec fn json_listing(es: Seq<DirEntryView>) -> Seq<char> {
    json_listing_with(es, last_visit_stamps(es))
}

/// The JSON listing of `entries`, with `stamps[i]` as the text of the last
/// visit of `entries[i]`.
pub fn render_json_with(entries: &Vec<DirEntry>, stamps: &Vec<String>) -> (s: String)
    requires
        stamps@.len() == entries@.len(),
    ensures
        s@ == json_listing_with(views(entries@), stamps@.map_values(|t: String| t@)),
{
    let ghost es = views(entries@);
    let ghost st = stamps@.map_values(|t: String| t@);
    let mut s = String::new();
    push_str(&mut s, "[");
    proof {
        reveal_strlit("[");
        assert(es.take(0) =~= Seq::<DirEntryView>::empty());
    }
    let mut i: usize = 0;
    while i < entries.len()
        invariant
            i <= entries.len(),
            stamps@.len() == entries@.len(),
            es == views(entries@),
            st == stamps@.map_values(|t: String| t@),
            s@ == seq!['['] + json_items(es.take(i as int), st.take(i as int)),
        decreases entries.len() - i,
    {
        if i > 0 {
            push_str(&mut s, ",");
            proof { reveal_strlit(","); }
        }
        let e = &entries[i];
        push_str(&mut s, "\n  {\"path\":\"");
        let pc = chars_of(e.path.as_str());
        push_escaped(&mut s, &pc);
        push_str(&mut s, "\",\"visit_count\":");
        push_decimal(&mut s, e.visit_count);
        push_str(&mut s, ",\"last_visited\":\"");
        push_str(&mut s, stamps[i].as_str());
        push_str(&mut s, "\"}");
        proof {
            assert(es[i as int] == e@);
            assert(st[i as int] == stamps@[i as int]@);
            let t1 = es.take(i + 1);
            let u1 = st.take(i + 1);
            assert(t1.drop_last() =~= es.take(i as int));
            assert(u1.take(i as int) =~= st.take(i as int));
            assert(t1.last() == e@);
            assert(u1[i as int] == st[i as int]);
            if i == 0 {
                assert(t1.len() == 1);
                assert(t1[0] == e@);
                assert(json_items(es.take(0), st.take(0)) =~= Seq::<char>::empty());
            }
            assert(s@ =~= seq!['['] + json_items(t1, u1));
        }
        i = i + 1;
    }
    push_str(&mut s, "\n]");
    proof {
        reveal_strlit("\n]");
        assert(es.take(entries.len() as int) =~= es);
        assert(st.take(entries.len() as int) =~= st);
    }
    s
}

/// The JSON listing of `entries`.
pub fn render_json(entries: &Vec<DirEntry>) -> (s: String)
    ensures
        s@ == json_listing(views(entries@)),
{
    let mut stamps: Vec<String> = Vec::new();
    let mut i: usize = 0;
    while i < entries.len()
        invariant
            i <= entries.len(),
            stamps@.len() == i,
            forall|k: int| 0 <= k < i ==> (#[trigger] stamps@[k])@ == utc_rfc3339(entries@[k].last_visited),
        decreases entries.len() - i,
    {
        stamps.push(rfc3339(entries[i].last_visited));
        i = i + 1;
    }
    let s = render_json_with(entries, &stamps);
    proof {
        let es = views(entries@);
        assert(stamps@.map_values(|t: String| t@) =~= last_visit_stamps(es));
    }
    s
}

// ---------------------------------------------------------------------
// Shell integration
// ---------------------------------------------------------------------

/// The bash integration: records every prompt's directory, wraps `trod` so
/// that `back` and the picker change directory, makes `td` call it, and
/// binds Ctrl-G to the picker.
pub const BASH_INIT: &'static str = r#"# trod shell integration for bash
__trod_hook() { command trod add "$PWD"; }
PROMPT_COMMAND="__trod_hook;${PROMPT_COMMAND}"

trod() {
  case "$1" in
    add|list|forget|clean|stats|import|init)
      command trod "$@"
      ;;
    back)
      local dir
      dir=$(command trod --print-back "${2:-1}")
      if [[ -n "$dir" ]]; then
        cd "$dir" || return
      fi
      ;;
    "")
      local dir
      dir=$(command trod --print)
      if [[ -n "$dir" ]]; then
        cd "$dir" || return
      fi
      ;;
    *)
      command trod "$@"
      ;;
  esac
}
td() { trod "$@"; }

__trod_pick() {
  local dir
  dir=$(command trod --print)
  if [[ -n "$dir" ]]; then
    cd "$dir" || return
  fi
}
bind -x '"\C-g": __trod_pick'
"#;

/// The zsh integration: records every directory change, wraps `trod` so
/// that `back` and the picker change directory, makes `td` call it, and
/// binds Ctrl-G to the picker.
pub const ZSH_INIT: &'static str = r#"# trod shell integration for zsh
autoload -U add-zsh-hook
__trod_hook() { command trod add "$PWD" }
add-zsh-hook chpwd __trod_hook

function trod {
  case "$1" in
    add|list|forget|clean|stats|import|init)
      command trod "$@"
      ;;
    back)
      local dir
      dir=$(command trod --print-back "${2:-1}")
      if [[ -n "$dir" ]]; then
        cd "$dir"
      fi
      ;;
    "")
      local dir
      dir=$(command trod --print)
      if [[ -n "$dir" ]]; then
        cd "$dir"
      fi
      ;;
    *)
      command trod "$@"
      ;;
  esac
}
td() { trod "$@" }

function trod-pick {
  local dir
  dir=$(command trod --print)
  if [[ -n "$dir" ]]; then
    cd "$dir"
  fi
  zle reset-prompt
}
zle -N trod-pick
bindkey '^G' trod-pick
"#;

/// The integration script for `shell`.
pub fn init_script(shell: Shell) -> (s: &'static str)
    ensures
        shell == Shell::Bash ==> s@ == BASH_INIT@,
        shell == Shell::Zsh ==> s@ == ZSH_INIT@,
{
    match shell {
        Shell::Bash => BASH_INIT,
        Shell::Zsh => ZSH_INIT,
    }
}

} // verus!
