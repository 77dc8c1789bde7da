use vstd::prelude::*;

use crate::strutil::{index_of_char, index_of_from, lemma_index_of_from, split_on, split_str};

verus! {

/// The first line of a command's output (up to the first newline, or the
/// whole text when there is none).
pub open spec fn first_line(s: Seq<char>) -> Seq<char> {
    s.take(index_of_from(s, '\n', 0))
}

/// The space-separated fields of a line, empty fields dropped, so that runs
/// of spaces count as one separator.
pub open spec fn nonempty_fields(parts: Seq<Seq<char>>) -> Seq<Seq<char>>
    decreases parts.len(),
{
    if parts.len() == 0 {
        Seq::empty()
    } else {
        let init = nonempty_fields(parts.drop_last());
        if parts.last().len() > 0 {
            init.push(parts.last())
        } else {
            init
        }
    }
}

pub open spec fn space_fields(line: Seq<char>) -> Seq<Seq<char>> {
    nonempty_fields(split_on(line, ' '))
}

/// The address in the output of the `ip -o address show` command: the fourth
/// field of the first line, with any "/prefix-length" suffix cut off. Absent
/// when the output is empty or the line has fewer than four fields.
pub open spec fn ip_in_output(s: Seq<char>) -> Option<Seq<char>> {
    if s.len() == 0 {
        None
    } else {
        let fields = space_fields(first_line(s));
        if fields.len() < 4 {
            None
        } else {
            let tok = fields[3];
            Some(tok.take(index_of_from(tok, '/', 0)))
        }
    }
}

/// Extracts the interface address from the output of `ip -o address show`.
pub fn parse_ip_output(s: &str) -> (r: Option<String>)
    ensures
        match r {
            Some(ip) => ip_in_output(s@) == Some(ip@),
            None => ip_in_output(s@) is None,
        },
{
    let n = s.unicode_len();
    if n == 0 {
        return None;
    }
    proof {
        lemma_index_of_from(s@, '\n', 0);
    }
    let nl = index_of_char(s, '\n', 0);
    let line = s.substring_char(0, nl);
    proof {
        assert(line@ =~= first_line(s@));
    }
    let parts = split_str(line, ' ');
    let ghost pseq = split_on(line@, ' ');
    proof {
        assert(Seq::new(parts@.len(), |k: int| parts@[k]@) =~= pseq);
    }
    let mut count: usize = 0;
    let mut tok: Option<String> = None;
    let m = parts.len();
    for k in 0..m
        invariant
            m == parts@.len(),
            pseq == split_on(line@, ' '),
            parts@.len() == pseq.len(),
            forall|j: int| 0 <= j < pseq.len() ==> (#[trigger] parts@[j])@ == pseq[j],
            count == nonempty_fields(pseq.take(k as int)).len(),
            count <= k,
            (count >= 4) == (tok is Some),
            tok matches Some(t) ==> t@ == nonempty_fields(pseq.take(k as int))[3],
    {
        proof {
            assert(pseq.take(k + 1).drop_last() =~= pseq.take(k as int));
        }
        let part = &parts[k];
        if !part.as_str().is_empty() {
            if count == 3 {
                tok = Some(part.clone());
            }
            count = count + 1;
        }
    }
    proof {
        assert(pseq.take(m as int) =~= pseq);
    }
    match tok {
        Some(t) => {
            proof {
                lemma_index_of_from(t@, '/', 0);
            }
            let sl = index_of_char(t.as_str(), '/', 0);
            let ip = t.as_str().substring_char(0, sl);
            Some(ip.to_owned())
        },
        None => None,
    }
}

} // verus!
