//! One row of the Docker container table, from the fields the Docker API reports.
use vstd::prelude::*;
use vstd::utf8::{encode_utf8, is_char_boundary};
use vstd::string::StringSliceAdditionalSpecFns;
use crate::text::{push_str, string_of};

verus! {

/// A container as the table shows it.
#[derive(Debug, Clone)]
pub struct ContainerRow {
    pub id: String,
    pub names: String,
    pub image: String,
    pub status: String,
}

/// The pieces joined with `sep` between neighbours, as `[String]::join` does.
pub open spec fn join_spec(parts: Seq<Seq<char>>, sep: Seq<char>) -> Seq<char>
    decreases parts.len(),
{
    if parts.len() == 0 {
        Seq::empty()
    } else if parts.len() == 1 {
        parts[0]
    } else {
        join_spec(parts.drop_last(), sep) + sep + parts.last()
    }
}

/// A shown field, or an em dash where the API gave none.
pub open spec fn or_dash(v: Option<String>) -> Seq<char> {
    match v {
        Some(s) => s@,
        None => "\u{2014}"@,
    }
}

/// The short id is cut from the first 12 bytes of the id, which must end on a character
/// (and the id, as every string, has a length that fits in `usize`).
pub open spec fn id_cut_ok(id: Seq<char>) -> bool {
    &&& encode_utf8(id).len() <= usize::MAX
    &&& encode_utf8(id).len() <= 12 || is_char_boundary(encode_utf8(id), 12)
}

fn join_strings(v: &Vec<String>, sep: &str) -> (r: String)
    ensures
        r@ == join_spec(v@.map_values(|s: String| s@), sep@),
{
    let ghost parts = v@.map_values(|s: String| s@);
    let mut r = String::new();
    let mut i: usize = 0;
    proof {
        assert(parts.take(0) =~= Seq::<Seq<char>>::empty());
    }
    while i < v.len()
        invariant
            i <= v.len(),
            parts == v@.map_values(|s: String| s@),
            r@ == join_spec(parts.take(i as int), sep@),
        decreases v.len() - i,
    {
        proof {
            assert(parts.take(i + 1).drop_last() =~= parts.take(i as int));
            assert(parts.take(i + 1).last() == v@[i as int]@);
        }
        if i > 0 {
            push_str(&mut r, sep);
        } else {
            proof {
                assert(parts.take(i + 1).len() == 1);
                assert(r@ =~= Seq::<char>::empty());
            }
        }
        push_str(&mut r, v[i].as_str());
        proof {
            if i == 0 {
                assert(r@ =~= parts.take(1)[0]);
            }
        }
        i = i + 1;
    }
    proof {
        assert(parts.take(v.len() as int) =~= parts);
    }
    r
}

/// The table row of a container: the id cut to 12 bytes, the names joined with `, `, and an
/// em dash for each field the API left out.
pub fn container_row(
    id: Option<String>,
    names: Option<Vec<String>>,
    image: Option<String>,
    status: Option<String>,
) -> (r: ContainerRow)
    requires
        id matches Some(s) ==> id_cut_ok(s@),
    ensures
        match id {
            Some(s) => if encode_utf8(s@).len() <= 12 {
                r.id@ == s@
            } else {
                encode_utf8(r.id@) == encode_utf8(s@).subrange(0, 12)
            },
            None => r.id@ == "\u{2014}"@,
        },
        r.names@ == match names {
            Some(v) => join_spec(v@.map_values(|s: String| s@), ", "@),
            None => "\u{2014}"@,
        },
        r.image@ == or_dash(image),
        r.status@ == or_dash(status),
        image matches Some(s) ==> r.image@ == s@,
        image is None ==> r.image@ == "\u{2014}"@,
        status matches Some(s) ==> r.status@ == s@,
        status is None ==> r.status@ == "\u{2014}"@,
{
    let id = match id {
        Some(s) => {
            let st = s.as_str();
            proof {
                assert(st@ == s@);
                assert(st.spec_bytes() == encode_utf8(s@));
            }
            if st.len() <= 12 {
                s
            } else {
                let (head, _tail) = st.split_at(12);
                let h = string_of(head);
                proof {
                    assert(head.spec_bytes() == encode_utf8(head@));
                    assert(encode_utf8(h@) == encode_utf8(s@).subrange(0, 12));
                }
                h
            }
        },
        None => string_of("\u{2014}"),
    };
    let names = match names {
        Some(v) => join_strings(&v, ", "),
        None => string_of("\u{2014}"),
    };
    let image = match image {
        Some(s) => s,
        None => string_of("\u{2014}"),
    };
    let status = match status {
        Some(s) => s,
        None => string_of("\u{2014}"),
    };
    ContainerRow { id, names, image, status }
}

/// Law: a field that the API reports is shown whole, whatever its length (only the id is
/// cut); a missing one is shown as an em dash.
pub proof fn law_present_field_shown_whole(v: Option<String>)
    ensures
        v matches Some(s) ==> or_dash(v) == s@ && or_dash(v).len() == s@.len(),
        v is None ==> or_dash(v) == "\u{2014}"@,
{
}

} // verus!
