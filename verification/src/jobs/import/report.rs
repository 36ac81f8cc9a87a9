//! The texts a quarantine leaves: the report beside the quarantined file and the reason
//! the download shows.

use vstd::prelude::*;
use crate::jobs::dat_import::decimal;
use crate::jobs::import::support::{EntryRom, Hashed, Hashes};

verus! {

/// `n` in decimal.
pub fn decimal_text(n: u64) -> (s: String)
    ensures
        s@ == decimal(n as nat),
    decreases n,
{
    let d = ((n % 10) as u8 + 48) as char;
    let head = if n < 10 {
        String::new()
    } else {
        decimal_text(n / 10)
    };
    let mut v = crate::text::chars_of(head.as_str());
    v.push(d);
    proof {
        if n < 10 {
            assert(v@ =~= seq![crate::jobs::dat_import::digit(n as nat)]);
        }
    }
    crate::text::string_of(&v)
}

/// An optional hash, `-` when the DAT gives none.
pub open spec fn or_dash(o: Option<String>) -> Seq<char> {
    match o {
        Some(s) => s@,
        None => "-"@,
    }
}

/// The lines of one arrived payload, led by `lead` (`Actual` and its label): its size,
/// its hashes, and the whole payload's when a header was stripped from it.
pub open spec fn actual_lines(lead: Seq<char>, a: Hashed) -> Seq<char> {
    lead + ": "@ + decimal(a.hashes.size as nat) + " bytes\n"@ + hash_line(a.hashes) + match a.whole {
        Some(w) => "  with its header, "@ + decimal(w.size as nat) + " bytes: crc32 "@ + w.crc32@ + "  md5 "@
            + w.md5@ + "  sha1 "@ + w.sha1@ + "\n"@,
        None => Seq::empty(),
    }
}

/// The line of a payload's hashes.
pub open spec fn hash_line(h: Hashes) -> Seq<char> {
    "  crc32 "@ + h.crc32@ + "  md5 "@ + h.md5@ + "  sha1 "@ + h.sha1@ + "\n"@
}

/// The lines of the arrived payloads `actual`, each led by `Actual` and, in a report,
/// ` member` for a zip member (`spaced`), or in an explanation by ` ` and the member.
pub open spec fn actual_text(actual: Seq<Hashed>, spaced: bool) -> Seq<char>
    decreases actual.len(),
{
    if actual.len() == 0 {
        Seq::empty()
    } else {
        let a = actual.last();
        let lead = if spaced {
            "Actual"@ + match a.member {
                Some(m) => " "@ + m@,
                None => Seq::empty(),
            }
        } else {
            "Actual "@ + match a.member {
                Some(m) => m@,
                None => Seq::empty(),
            }
        };
        actual_text(actual.drop_last(), spaced) + actual_lines(lead, a)
    }
}

/// The quarantine report: the rom the transfer was chosen for, what arrived, the other
/// entry it matches when it matches one, and the platform's header rule.
pub open spec fn report_of(expected: Option<EntryRom>, actual: Seq<Hashed>, other: Option<Seq<char>>, rule: Seq<char>) -> Seq<char> {
    let head = match other {
        Some(_) => "This file is not the wanted entry and was not placed.\n\n"@,
        None => "This file matches no entry in the loaded DATs and was not placed.\n\n"@,
    };
    let wanted = match expected {
        Some(r) => "Expected: "@ + r.name@ + " ("@ + decimal(r.size as nat) + " bytes)\n"@ + "  crc32 "@
            + or_dash(r.crc32) + "  md5 "@ + or_dash(r.md5) + "  sha1 "@ + or_dash(r.sha1) + "\n"@,
        None => "Expected: unknown rom\n"@,
    };
    let instead = match other {
        Some(o) => "Matches instead: "@ + o + "\n"@,
        None => Seq::empty(),
    };
    head + wanted + actual_text(actual, true) + instead + "Header rule: "@ + rule + "\n"@
}

/// A report that opens with `why` and lists what arrived.
pub open spec fn explain_of(why: Seq<char>, actual: Seq<Hashed>) -> Seq<char> {
    why + "\n\n"@ + actual_text(actual, false)
}

/// `a` followed by `b`.
fn cat(a: String, b: &str) -> (s: String)
    ensures
        s@ == a@ + b@,
{
    crate::text::concat(a.as_str(), b)
}

/// The lines of one arrived payload led by `lead`; see [`actual_lines`].
fn payload_lines(lead: String, a: &Hashed) -> (s: String)
    ensures
        s@ == actual_lines(lead@, *a),
{
    let h = &a.hashes;
    let s = cat(lead, ": ");
    let size = decimal_text(h.size);
    let s = cat(s, size.as_str());
    let s = cat(s, " bytes\n");
    let s = cat(s, "  crc32 ");
    let s = cat(s, h.crc32.as_str());
    let s = cat(s, "  md5 ");
    let s = cat(s, h.md5.as_str());
    let s = cat(s, "  sha1 ");
    let s = cat(s, h.sha1.as_str());
    let s = cat(s, "\n");
    let out = match &a.whole {
        Some(w) => {
            let t = cat(s, "  with its header, ");
            let ws = decimal_text(w.size);
            let t = cat(t, ws.as_str());
            let t = cat(t, " bytes: crc32 ");
            let t = cat(t, w.crc32.as_str());
            let t = cat(t, "  md5 ");
            let t = cat(t, w.md5.as_str());
            let t = cat(t, "  sha1 ");
            let t = cat(t, w.sha1.as_str());
            cat(t, "\n")
        },
        None => cat(s, ""),
    };
    proof {
        reveal_strlit(": ");
        reveal_strlit(" bytes\n");
        reveal_strlit("  crc32 ");
        reveal_strlit("  md5 ");
        reveal_strlit("  sha1 ");
        reveal_strlit("\n");
        reveal_strlit("  with its header, ");
        reveal_strlit(" bytes: crc32 ");
        reveal_strlit("");
        assert(out@ =~= actual_lines(lead@, *a));
    }
    out
}

/// The lines of the arrived payloads; see [`actual_text`].
fn payloads_text(actual: &[Hashed], spaced: bool) -> (s: String)
    ensures
        s@ == actual_text(actual@, spaced),
{
    let mut out = String::new();
    let mut i: usize = 0;
    proof {
        reveal_strlit("");
        assert(actual@.subrange(0, 0) =~= Seq::<Hashed>::empty());
    }
    while i < actual.len()
        invariant
            i <= actual@.len(),
            out@ == actual_text(actual@.subrange(0, i as int), spaced),
        decreases actual.len() - i,
    {
        let a = &actual[i];
        let lead = if spaced {
            match &a.member {
                Some(m) => cat(String::from_str("Actual "), m.as_str()),
                None => String::from_str("Actual"),
            }
        } else {
            match &a.member {
                Some(m) => cat(String::from_str("Actual "), m.as_str()),
                None => String::from_str("Actual "),
            }
        };
        let lines = payload_lines(lead, a);
        out = cat(out, lines.as_str());
        proof {
            reveal_strlit("Actual ");
            reveal_strlit("Actual");
            reveal_strlit(" ");
            let pre = actual@.subrange(0, i + 1);
            assert(pre.drop_last() =~= actual@.subrange(0, i as int));
            assert(pre.last() == actual@[i as int]);
            assert(("Actual"@ + " "@) =~= "Actual "@);
        }
        i = i + 1;
    }
    proof {
        assert(actual@.subrange(0, actual@.len() as int) =~= actual@);
    }
    out
}

/// An optional hash, `-` when the DAT gives none.
fn dash(o: &Option<String>) -> (s: String)
    ensures
        s@ == or_dash(*o),
{
    match o {
        Some(s) => s.clone(),
        None => String::from_str("-"),
    }
}

/// The quarantine report; see [`report_of`].
pub fn report(expected: Option<&EntryRom>, actual: &[Hashed], other: Option<&str>, rule: &str) -> (s: String)
    ensures
        s@ == report_of(
            match expected {
                Some(r) => Some(*r),
                None => None,
            },
            actual@,
            match other {
                Some(o) => Some(o@),
                None => None,
            },
            rule@,
        ),
{
    let head = match other {
        Some(_) => String::from_str("This file is not the wanted entry and was not placed.\n\n"),
        None => String::from_str("This file matches no entry in the loaded DATs and was not placed.\n\n"),
    };
    let wanted = match expected {
        Some(r) => {
            let s = cat(String::from_str("Expected: "), r.name.as_str());
            let s = cat(s, " (");
            let size = decimal_text(r.size);
            let s = cat(s, size.as_str());
            let s = cat(s, " bytes)\n");
            let s = cat(s, "  crc32 ");
            let c = dash(&r.crc32);
            let s = cat(s, c.as_str());
            let s = cat(s, "  md5 ");
            let m = dash(&r.md5);
            let s = cat(s, m.as_str());
            let s = cat(s, "  sha1 ");
            let h = dash(&r.sha1);
            let s = cat(s, h.as_str());
            cat(s, "\n")
        },
        None => String::from_str("Expected: unknown rom\n"),
    };
    let lines = payloads_text(actual, true);
    let instead = match other {
        Some(o) => {
            let s = cat(String::from_str("Matches instead: "), o);
            cat(s, "\n")
        },
        None => String::new(),
    };
    let s = cat(head, wanted.as_str());
    let s = cat(s, lines.as_str());
    let s = cat(s, instead.as_str());
    let s = cat(s, "Header rule: ");
    let s = cat(s, rule);
    let out = cat(s, "\n");
    proof {
        reveal_strlit("This file is not the wanted entry and was not placed.\n\n");
        reveal_strlit("This file matches no entry in the loaded DATs and was not placed.\n\n");
        reveal_strlit("Expected: ");
        reveal_strlit(" (");
        reveal_strlit(" bytes)\n");
        reveal_strlit("  crc32 ");
        reveal_strlit("  md5 ");
        reveal_strlit("  sha1 ");
        reveal_strlit("\n");
        reveal_strlit("Expected: unknown rom\n");
        reveal_strlit("Matches instead: ");
        reveal_strlit("Header rule: ");
        reveal_strlit("-");
        assert(out@ =~= report_of(
            match expected {
                Some(r) => Some(*r),
                None => None,
            },
            actual@,
            match other {
                Some(o) => Some(o@),
                None => None,
            },
            rule@,
        ));
    }
    out
}

/// A report that opens with `why` and lists what arrived; see [`explain_of`].
pub fn explain(why: &str, actual: &[Hashed]) -> (s: String)
    ensures
        s@ == explain_of(why@, actual@),
{
    let s = crate::text::concat(why, "\n\n");
    let lines = payloads_text(actual, false);
    let out = cat(s, lines.as_str());
    proof {
        reveal_strlit("\n\n");
    }
    out
}

/// The reason a quarantined download shows: `why` when the importer gave one, else the
/// other entry it is (`other`, its title and rom names), else that it matches none.
pub open spec fn quarantine_reason_of(why: Option<Seq<char>>, other: Option<(Seq<char>, Seq<char>)>) -> Seq<char> {
    match why {
        Some(w) => w,
        None => match other {
            Some((title, rom)) => "the file is "@ + title + " ("@ + rom + "), not the wanted entry; it was quarantined"@,
            None => "the file matches no DAT entry and was quarantined"@,
        },
    }
}

/// The reason a quarantined download shows; see [`quarantine_reason_of`].
pub fn quarantine_reason(why: Option<&str>, other: Option<(&str, &str)>) -> (s: String)
    ensures
        s@ == quarantine_reason_of(
            match why {
                Some(w) => Some(w@),
                None => None,
            },
            match other {
                Some((t, r)) => Some((t@, r@)),
                None => None,
            },
        ),
{
    proof {
        reveal_strlit("the file is ");
        reveal_strlit(" (");
        reveal_strlit("), not the wanted entry; it was quarantined");
        reveal_strlit("the file matches no DAT entry and was quarantined");
    }
    match why {
        Some(w) => String::from_str(w),
        None => match other {
            Some((title, rom)) => {
                let s = cat(String::from_str("the file is "), title);
                let s = cat(s, " (");
                let s = cat(s, rom);
                cat(s, "), not the wanted entry; it was quarantined")
            },
            None => String::from_str("the file matches no DAT entry and was quarantined"),
        },
    }
}

} // verus!
