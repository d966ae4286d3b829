//! The main file's header block: verbatim comment lines plus the tick tag.

use vstd::prelude::*;
use vstd::string::StringExecFns;
use crate::text::{find_ws, skip_ws, find_ws_from, skip_ws_from};

verus! {

/// Mathematical image of a header: the accumulated comment text and the
/// current tick tag.
#[verifier::ext_equal]
pub ghost struct HeaderV {
    pub header: Seq<char>,
    pub tick: Seq<char>,
}

/// File-level metadata taken from the main file: every leading `#` line
/// verbatim (`header`), and the tick tag `t=<value>` drawn from a
/// `#@/tick <value>` line (`tick`, empty while no such line has appeared).
#[derive(Debug)]
pub struct FileHeader {
    pub header: String,
    pub tick: String,
}

impl View for FileHeader {
    type V = HeaderV;

    open spec fn view(&self) -> HeaderV {
        HeaderV { header: self.header@, tick: self.tick@ }
    }
}

/// A comment line that begins with the tick marker `#@/tick`.
pub open spec fn is_tick_line(s: Seq<char>) -> bool {
    s.len() >= 7 && s[0] == '#' && s[1] == '@' && s[2] == '/' && s[3] == 't' && s[4] == 'i'
        && s[5] == 'c' && s[6] == 'k'
}

/// The tick tag a tick line yields: `t=` followed by the line's second
/// whitespace-separated token, or the previous tag when the line has no
/// second token.
pub open spec fn spec_tick_update(s: Seq<char>, prev: Seq<char>) -> Seq<char> {
    let t0s = skip_ws(s, 0);
    let t0e = find_ws(s, t0s);
    let t1s = skip_ws(s, t0e);
    let t1e = find_ws(s, t1s);
    if t1s < s.len() {
        seq!['t', '='] + s.subrange(t1s, t1e)
    } else {
        prev
    }
}

/// How one comment line extends a header: its text is appended with a
/// newline, and a tick line renews the tick tag.
pub open spec fn spec_header_step(hv: HeaderV, line: Seq<char>) -> HeaderV {
    HeaderV {
        header: hv.header + line + seq!['\n'],
        tick: if is_tick_line(line) {
            spec_tick_update(line, hv.tick)
        } else {
            hv.tick
        },
    }
}

/// Whether `line` begins with the tick marker.
pub fn is_tick_line_exec(line: &str) -> (r: bool)
    ensures
        r == is_tick_line(line@),
{
    let n = line.unicode_len();
    if n < 7 {
        return false;
    }
    line.get_char(0) == '#' && line.get_char(1) == '@' && line.get_char(2) == '/'
        && line.get_char(3) == 't' && line.get_char(4) == 'i' && line.get_char(5) == 'c'
        && line.get_char(6) == 'k'
}

/// Folds one comment line of the main file into the header, as
/// `spec_header_step` describes.
pub fn header_line(h: &mut FileHeader, line: &str)
    ensures
        final(h)@ == spec_header_step(old(h)@, line@),
{
    h.header.append(line);
    h.header.append("\n");
    proof {
        reveal_strlit("\n");
        assert(("\n")@ =~= seq!['\n']);
        assert(h.header@ =~= old(h)@.header + line@ + seq!['\n']);
    }
    if is_tick_line_exec(line) {
        let n = line.unicode_len();
        let t0s = skip_ws_from(line, 0);
        let t0e = find_ws_from(line, t0s);
        let t1s = skip_ws_from(line, t0e);
        if t1s < n {
            let t1e = find_ws_from(line, t1s);
            let mut tk = "t=".to_owned();
            tk.append(line.substring_char(t1s, t1e));
            proof {
                reveal_strlit("t=");
                assert(("t=")@ =~= seq!['t', '=']);
                assert(tk@ =~= seq!['t', '='] + line@.subrange(t1s as int, t1e as int));
            }
            h.tick = tk;
        }
    }
    proof {
        assert(h@ =~= spec_header_step(old(h)@, line@));
    }
}

} // verus!
