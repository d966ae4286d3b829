//! The record type: one merged user-database entry, and its line form.

use vstd::prelude::*;
use vstd::string::StringExecFns;

verus! {

/// Mathematical image of a record: the composite key and the three raw
/// tokens of the third column, plus the confidence the first token carries.
#[verifier::ext_equal]
pub ghost struct Rec {
    pub key: Seq<char>,
    pub ci: int,
    pub c: Seq<char>,
    pub d: Seq<char>,
    pub t: Seq<char>,
}

/// One user-database record.
///
/// `key` is the first two tab-delimited fields of the source line joined by
/// a tab; `c`, `d` and `t` are the three whitespace-delimited tokens of the
/// third field, kept verbatim; `ci` is the integer parsed out of `c`.
#[derive(Debug, Clone, PartialEq, Eq)]
pub struct Userdb {
    pub key: String,
    pub ci: i32,
    pub c: String,
    pub d: String,
    pub t: String,
}

impl View for Userdb {
    type V = Rec;

    open spec fn view(&self) -> Rec {
        Rec { key: self.key@, ci: self.ci as int, c: self.c@, d: self.d@, t: self.t@ }
    }
}

/// The line form of a record, without the terminating newline:
/// `key TAB c SPACE d SPACE t`.
pub open spec fn spec_record_line(r: Rec) -> Seq<char> {
    r.key + seq!['\t'] + r.c + seq![' '] + r.d + seq![' '] + r.t
}

/// Serializes a record as one output line, newline included.
pub fn convert_to_str(userdb: &Userdb) -> (r: String)
    ensures
        r@ == spec_record_line(userdb@) + seq!['\n'],
{
    let mut s = userdb.key.clone();
    s.append("\t");
    s.append(userdb.c.as_str());
    s.append(" ");
    s.append(userdb.d.as_str());
    s.append(" ");
    s.append(userdb.t.as_str());
    s.append("\n");
    proof {
        reveal_strlit("\t");
        reveal_strlit(" ");
        reveal_strlit("\n");
        assert(("\t")@ =~= seq!['\t']);
        assert((" ")@ =~= seq![' ']);
        assert(("\n")@ =~= seq!['\n']);
        assert(s@ =~= spec_record_line(userdb@) + seq!['\n']);
    }
    s
}

} // verus!
