//! Command-line values.
use vstd::prelude::*;
use crate::text::{chars_of, parse_u16, parse_u16_spec, split_chars, split_on, trim, trim_chars, views};

verus! {

/// The ports of some comma-separated pieces: each piece trimmed and read as a
/// `u16`; pieces that are no port are skipped.
pub open spec fn ports_of_pieces(pieces: Seq<Seq<char>>) -> Seq<u16>
    decreases pieces.len(),
{
    if pieces.len() == 0 {
        Seq::empty()
    } else {
        let r = ports_of_pieces(pieces.drop_last());
        match parse_u16_spec(trim(pieces.last())) {
            Some(p) => r.push(p),
            None => r,
        }
    }
}

/// The ports of a comma-separated list such as `3000,5173,8080`.
pub open spec fn manual_ports_spec(input: Seq<char>) -> Seq<u16> {
    ports_of_pieces(split_on(input, ','))
}

/// Reads a comma-separated list of ports to watch, skipping what is no port.
pub fn parse_manual_ports(input: &str) -> (r: Vec<u16>)
    ensures
        r@ == manual_ports_spec(input@),
{
    let cs = chars_of(input);
    let pieces = split_chars(&cs, ',');
    let mut r: Vec<u16> = Vec::new();
    let mut i: usize = 0;
    assert(views(pieces@).take(0) =~= Seq::<Seq<char>>::empty());
    while i < pieces.len()
        invariant
            i <= pieces.len(),
            views(pieces@) == split_on(input@, ','),
            r@ == ports_of_pieces(views(pieces@).take(i as int)),
        decreases pieces.len() - i,
    {
        assert(views(pieces@).take(i + 1).drop_last() =~= views(pieces@).take(i as int));
        assert(views(pieces@).take(i + 1).last() == pieces@[i as int]@);
        let t = trim_chars(&pieces[i]);
        if let Some(p) = parse_u16(&t) {
            r.push(p);
        }
        i += 1;
    }
    assert(views(pieces@).take(pieces.len() as int) =~= views(pieces@));
    r
}

} // verus!
