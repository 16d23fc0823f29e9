use vstd::prelude::*;

verus! {

/// A hexadecimal digit, in either case.
pub open spec fn is_hex_digit(c: char) -> bool {
    ('0' <= c && c <= '9') || ('a' <= c && c <= 'f') || ('A' <= c && c <= 'F')
}

pub open spec fn hex_digit_value(c: char) -> nat {
    if '0' <= c && c <= '9' {
        (c as u32 - '0' as u32) as nat
    } else if 'a' <= c && c <= 'f' {
        (c as u32 - 'a' as u32 + 10) as nat
    } else {
        (c as u32 - 'A' as u32 + 10) as nat
    }
}

pub open spec fn is_decimal_digit(c: char) -> bool {
    '0' <= c && c <= '9'
}

/// The number that a string of decimal digits spells.
pub open spec fn decimal_value(d: Seq<char>) -> nat
    decreases d.len(),
{
    if d.len() == 0 {
        0
    } else {
        10 * decimal_value(d.drop_last()) + (d.last() as u32 - '0' as u32) as nat
    }
}

pub open spec fn all_decimal(d: Seq<char>) -> bool {
    forall|i: int| 0 <= i < d.len() ==> is_decimal_digit(#[trigger] d[i])
}

pub open spec fn all_hex(g: Seq<char>) -> bool {
    forall|i: int| 0 <= i < g.len() ==> is_hex_digit(#[trigger] g[i])
}

/// One group of an address: one to four hexadecimal digits.
pub open spec fn is_group(g: Seq<char>) -> bool {
    1 <= g.len() <= 4 && all_hex(g)
}

/// The number that a string of hexadecimal digits spells.
pub open spec fn group_value(g: Seq<char>) -> nat
    decreases g.len(),
{
    if g.len() == 0 {
        0
    } else {
        16 * group_value(g.drop_last()) + hex_digit_value(g.last())
    }
}

/// The pieces of `s` between its `sep` characters, in order; `s` without one is one piece.
pub open spec fn split_on(s: Seq<char>, sep: char) -> Seq<Seq<char>>
    decreases s.len(),
{
    if s.len() == 0 {
        seq![Seq::empty()]
    } else {
        let f = split_on(s.drop_last(), sep);
        if s.last() == sep {
            f.push(Seq::empty())
        } else {
            f.update(f.len() - 1, f.last().push(s.last()))
        }
    }
}

/// The pieces of `s` between its colons.
pub open spec fn fields(s: Seq<char>) -> Seq<Seq<char>> {
    split_on(s, ':')
}

/// One part of a dotted IPv4 address: a decimal number below 256 of one to three
/// digits, without a leading zero.
pub open spec fn is_octet(o: Seq<char>) -> bool {
    &&& 1 <= o.len() <= 3
    &&& all_decimal(o)
    &&& (o.len() > 1 ==> o[0] != '0')
    &&& decimal_value(o) <= 255
}

/// Four octets separated by dots.
pub open spec fn is_ipv4(g: Seq<char>) -> bool {
    let o = split_on(g, '.');
    o.len() == 4 && is_octet(o[0]) && is_octet(o[1]) && is_octet(o[2]) && is_octet(o[3])
}

/// The two segments that a dotted IPv4 address stands for.
pub open spec fn ipv4_segments(g: Seq<char>) -> Seq<u16> {
    let o = split_on(g, '.');
    seq![
        (256 * decimal_value(o[0]) + decimal_value(o[1])) as u16,
        (256 * decimal_value(o[2]) + decimal_value(o[3])) as u16,
    ]
}

pub open spec fn all_groups(f: Seq<Seq<char>>) -> bool {
    forall|i: int| 0 <= i < f.len() ==> is_group(#[trigger] f[i])
}

pub open spec fn group_values(f: Seq<Seq<char>>) -> Seq<u16> {
    f.map_values(|g: Seq<char>| group_value(g) as u16)
}

pub open spec fn zeros(n: nat) -> Seq<u16> {
    Seq::new(n, |i: int| 0u16)
}

/// The empty piece at `k` is the `::` of an address with groups on both sides of it.
pub open spec fn elided_at(f: Seq<Seq<char>>, width: nat, k: int) -> bool {
    &&& 0 < k < f.len() - 1
    &&& f.len() <= width
    &&& f[k].len() == 0
    &&& all_groups(f.take(k))
    &&& all_groups(f.skip(k + 1))
}

/// The `width` segments that the pieces `f` of a text denote: `width` groups, or fewer
/// with one `::` standing for as many zero groups as are missing.
pub open spec fn groups_address(f: Seq<Seq<char>>, width: nat) -> Option<Seq<u16>> {
    let n = f.len();
    if all_groups(f) {
        if n == width {
            Some(group_values(f))
        } else {
            None
        }
    } else if n == 3 && f[0].len() == 0 && f[1].len() == 0 && f[2].len() == 0 {
        Some(zeros(width))
    } else if 3 <= n <= width + 1 && f[0].len() == 0 && f[1].len() == 0 && all_groups(
        f.skip(2),
    ) {
        Some(zeros((width + 2 - n) as nat) + group_values(f.skip(2)))
    } else if 3 <= n <= width + 1 && f[n - 2].len() == 0 && f[n - 1].len() == 0 && all_groups(
        f.take(n - 2),
    ) {
        Some(group_values(f.take(n - 2)) + zeros((width + 2 - n) as nat))
    } else if exists|k: int| elided_at(f, width, k) {
        let k = choose|k: int| elided_at(f, width, k);
        Some(group_values(f.take(k)) + zeros((width + 1 - n) as nat) + group_values(
            f.skip(k + 1),
        ))
    } else {
        None
    }
}

/// The eight 16-bit segments that the text form `s` of an IPv6 address denotes:
/// eight groups separated by colons, or at most seven groups with one `::`
/// standing for as many zero groups as are missing. The last piece may be a dotted
/// IPv4 address, which stands where two groups would.
pub open spec fn address_of(s: Seq<char>) -> Option<Seq<u16>> {
    let f = fields(s);
    if f.len() >= 1 && is_ipv4(f.last()) {
        match groups_address(f.update(f.len() - 1, seq!['0']), 7) {
            Some(a) => Some(a.drop_last() + ipv4_segments(f.last())),
            None => None,
        }
    } else {
        groups_address(f, 8)
    }
}

/// Every address that pieces denote has as many segments as asked for.
pub proof fn lemma_groups_address_width(f: Seq<Seq<char>>, width: nat)
    requires
        groups_address(f, width) is Some,
    ensures
        groups_address(f, width)->0.len() == width,
{
    let n = f.len();
    if !all_groups(f) && exists|k: int| elided_at(f, width, k) {
        let k = choose|k: int| elided_at(f, width, k);
        assert(f.take(k).len() == k);
        assert(f.skip(k + 1).len() == n - k - 1);
    }
}

/// An IPv6 address as its eight 16-bit segments, most significant first.
pub struct Ipv6Address {
    pub segments: Vec<u16>,
}

/// What the parser knows of one piece between colons.
struct Piece {
    len: usize,
    hex: bool,
    value: u32,
}

spec fn piece_of(p: Piece, g: Seq<char>) -> bool {
    &&& p.len == g.len()
    &&& p.hex == all_hex(g)
    &&& (p.hex && g.len() <= 4 ==> p.value == group_value(g))
}

spec fn pieces_of(ps: Seq<Piece>, f: Seq<Seq<char>>) -> bool {
    &&& ps.len() == f.len()
    &&& forall|j: int| 0 <= j < ps.len() ==> piece_of(#[trigger] ps[j], f[j])
}

proof fn lemma_group_value_bound(g: Seq<char>)
    requires
        all_hex(g),
    ensures
        group_value(g) < pow16(g.len()),
    decreases g.len(),
{
    if g.len() > 0 {
        let h = g.drop_last();
        assert(all_hex(h)) by {
            assert forall|i: int| 0 <= i < h.len() implies is_hex_digit(#[trigger] h[i]) by {
                assert(h[i] == g[i]);
            }
        }
        lemma_group_value_bound(h);
        assert(is_hex_digit(g[g.len() - 1]));
    }
}

spec fn pow16(n: nat) -> nat
    decreases n,
{
    if n == 0 {
        1
    } else {
        16 * pow16((n - 1) as nat)
    }
}

fn hex_value(c: char) -> (r: u32)
    requires
        is_hex_digit(c),
    ensures
        r == hex_digit_value(c),
        r < 16,
{
    let u = c as u32;
    if '0' <= c && c <= '9' {
        u - ('0' as u32)
    } else if 'a' <= c && c <= 'f' {
        u - ('a' as u32) + 10
    } else {
        u - ('A' as u32) + 10
    }
}

fn is_hex(c: char) -> (r: bool)
    ensures
        r == is_hex_digit(c),
{
    ('0' <= c && c <= '9') || ('a' <= c && c <= 'f') || ('A' <= c && c <= 'F')
}

/// Splits `s` at its colons and reads each piece.
fn split_pieces(s: &Vec<char>) -> (r: Vec<Piece>)
    ensures
        pieces_of(r@, fields(s@)),
{
    let mut done: Vec<Piece> = Vec::new();
    let mut cur = Piece { len: 0, hex: true, value: 0 };
    let mut i: usize = 0;
    assert(s@.take(0) =~= Seq::<char>::empty());
    while i < s.len()
        invariant
            i <= s@.len(),
            fields(s@.take(i as int)).len() == done@.len() + 1,
            forall|j: int|
                0 <= j < done@.len() ==> piece_of(#[trigger] done@[j], fields(s@.take(i as int))[j]),
            piece_of(cur, fields(s@.take(i as int)).last()),
            cur.len <= i,
        decreases s@.len() - i,
    {
        let c = s[i];
        let ghost before = fields(s@.take(i as int));
        let ghost t = s@.take(i + 1);
        assert(t.drop_last() =~= s@.take(i as int));
        assert(t.last() == c);
        if c == ':' {
            let ghost prev = done@;
            done.push(cur);
            cur = Piece { len: 0, hex: true, value: 0 };
            assert(fields(t) == before.push(Seq::empty()));
            assert forall|j: int| 0 <= j < done@.len() implies piece_of(
                #[trigger] done@[j],
                fields(t)[j],
            ) by {
                if j < done@.len() - 1 {
                    assert(done@[j] == prev[j]);
                }
            }
        } else {
            let ghost g = before.last();
            let ghost ng = g.push(c);
            assert(fields(t) == before.update(before.len() - 1, ng));
            assert(ng.drop_last() =~= g);
            let h = is_hex(c);
            let mut nv = cur.value;
            if cur.hex && h && cur.len < 4 {
                proof {
                    lemma_group_value_bound(g);
                    reveal_with_fuel(pow16, 4);
                    assert(group_value(g) < 4096);
                }
                nv = cur.value * 16 + hex_value(c);
            }
            proof {
                if cur.hex && h {
                    assert forall|k: int| 0 <= k < ng.len() implies is_hex_digit(#[trigger] ng[k]) by {
                        if k < g.len() {
                            assert(ng[k] == g[k]);
                        }
                    }
                }
                if !cur.hex {
                    let k = choose|k: int| 0 <= k < g.len() && !is_hex_digit(#[trigger] g[k]);
                    assert(ng[k] == g[k]);
                }
                if !h {
                    assert(!is_hex_digit(ng[ng.len() - 1]));
                }
            }
            cur = Piece { len: cur.len + 1, hex: cur.hex && h, value: nv };
        }
        i = i + 1;
    }
    assert(s@.take(i as int) =~= s@);
    done.push(cur);
    done
}

/// Whether every piece in `lo..hi` is a group.
fn groups_in(ps: &Vec<Piece>, lo: usize, hi: usize, Ghost(f): Ghost<Seq<Seq<char>>>) -> (r: bool)
    requires
        pieces_of(ps@, f),
        lo <= hi <= ps@.len(),
    ensures
        r == all_groups(f.subrange(lo as int, hi as int)),
{
    let mut j: usize = lo;
    while j < hi
        invariant
            lo <= j <= hi,
            hi <= ps@.len(),
            pieces_of(ps@, f),
            forall|k: int| lo <= k < j ==> is_group(#[trigger] f[k]),
        decreases hi - j,
    {
        if !(ps[j].hex && 1 <= ps[j].len && ps[j].len <= 4) {
            assert(piece_of(ps@[j as int], f[j as int]));
            assert(f.subrange(lo as int, hi as int)[j - lo] == f[j as int]);
            return false;
        }
        assert(piece_of(ps@[j as int], f[j as int]));
        j = j + 1;
    }
    assert forall|i: int| 0 <= i < hi - lo implies is_group(
        #[trigger] f.subrange(lo as int, hi as int)[i],
    ) by {
        assert(f.subrange(lo as int, hi as int)[i] == f[lo + i]);
    }
    true
}

/// The first piece that is not a group.
fn first_non_group(ps: &Vec<Piece>, Ghost(f): Ghost<Seq<Seq<char>>>) -> (k: usize)
    requires
        pieces_of(ps@, f),
        !all_groups(f),
    ensures
        k < f.len(),
        !is_group(f[k as int]),
        forall|j: int| 0 <= j < k ==> is_group(#[trigger] f[j]),
{
    let mut j: usize = 0;
    while j < ps.len()
        invariant
            j <= ps@.len(),
            pieces_of(ps@, f),
            !all_groups(f),
            forall|i: int| 0 <= i < j ==> is_group(#[trigger] f[i]),
        decreases ps@.len() - j,
    {
        assert(piece_of(ps@[j as int], f[j as int]));
        if !(ps[j].hex && 1 <= ps[j].len && ps[j].len <= 4) {
            return j;
        }
        j = j + 1;
    }
    j
}

/// Appends the values of the pieces in `lo..hi`, each of them a group.
fn push_values(
    ps: &Vec<Piece>,
    lo: usize,
    hi: usize,
    out: &mut Vec<u16>,
    Ghost(f): Ghost<Seq<Seq<char>>>,
)
    requires
        pieces_of(ps@, f),
        lo <= hi <= ps@.len(),
        all_groups(f.subrange(lo as int, hi as int)),
    ensures
        final(out)@ == old(out)@ + group_values(f.subrange(lo as int, hi as int)),
{
    let ghost start = out@;
    let mut j: usize = lo;
    while j < hi
        invariant
            lo <= j <= hi,
            hi <= ps@.len(),
            pieces_of(ps@, f),
            all_groups(f.subrange(lo as int, hi as int)),
            out@ == start + group_values(f.subrange(lo as int, j as int)),
        decreases hi - j,
    {
        let ghost g = f[j as int];
        assert(f.subrange(lo as int, hi as int)[j - lo] == g);
        assert(piece_of(ps@[j as int], g));
        proof {
            lemma_group_value_bound(g);
            reveal_with_fuel(pow16, 5);
            assert(group_value(g) < 65536);
        }
        out.push(ps[j].value as u16);
        assert(f.subrange(lo as int, j + 1) =~= f.subrange(lo as int, j as int).push(g));
        assert(group_values(f.subrange(lo as int, j + 1)) =~= group_values(
            f.subrange(lo as int, j as int),
        ).push(group_value(g) as u16));
        j = j + 1;
    }
}

/// Appends `count` zero segments.
fn push_zeros(out: &mut Vec<u16>, count: usize)
    ensures
        final(out)@ == old(out)@ + zeros(count as nat),
{
    let ghost start = out@;
    let mut j: usize = 0;
    while j < count
        invariant
            j <= count,
            out@ == start + zeros(j as nat),
        decreases count - j,
    {
        out.push(0);
        assert(zeros((j + 1) as nat) =~= zeros(j as nat).push(0));
        j = j + 1;
    }
}

/// Puts together the `width` segments that the pieces denote.
fn assemble(ps: &Vec<Piece>, width: usize, Ghost(f): Ghost<Seq<Seq<char>>>) -> (r: Option<
    Vec<u16>,
>)
    requires
        pieces_of(ps@, f),
        1 <= width <= 8,
    ensures
        r is Some <==> groups_address(f, width as nat) is Some,
        r is Some ==> r->0@ == groups_address(f, width as nat)->0,
{
    let n = ps.len();
    assert(f.subrange(0, n as int) =~= f);
    let mut out: Vec<u16> = Vec::new();
    if groups_in(ps, 0, n, Ghost(f)) {
        if n == width {
            push_values(ps, 0, width, &mut out, Ghost(f));
            assert(out@ =~= group_values(f));
            Some(out)
        } else {
            None
        }
    } else if n == 3 && ps[0].len == 0 && ps[1].len == 0 && ps[2].len == 0 {
        assert(piece_of(ps@[0], f[0]) && piece_of(ps@[1], f[1]) && piece_of(ps@[2], f[2]));
        push_zeros(&mut out, width);
        assert(out@ =~= zeros(width as nat));
        Some(out)
    } else if 3 <= n && n <= width + 1 && ps[0].len == 0 && ps[1].len == 0 && groups_in(
        ps,
        2,
        n,
        Ghost(f),
    ) {
        assert(piece_of(ps@[0], f[0]) && piece_of(ps@[1], f[1]));
        assert(f.skip(2) =~= f.subrange(2, n as int));
        push_zeros(&mut out, width + 2 - n);
        push_values(ps, 2, n, &mut out, Ghost(f));
        assert(out@ =~= zeros((width + 2 - n) as nat) + group_values(f.skip(2)));
        Some(out)
    } else if 3 <= n && n <= width + 1 && ps[n - 2].len == 0 && ps[n - 1].len == 0 && groups_in(
        ps,
        0,
        n - 2,
        Ghost(f),
    ) {
        assert(piece_of(ps@[n - 2], f[n - 2]) && piece_of(ps@[n - 1], f[n - 1]));
        assert(f.take(n - 2) =~= f.subrange(0, n - 2));
        push_values(ps, 0, n - 2, &mut out, Ghost(f));
        push_zeros(&mut out, width + 2 - n);
        assert(out@ =~= group_values(f.take(n - 2)) + zeros((width + 2 - n) as nat));
        Some(out)
    } else {
        proof {
            if n >= 3 {
                assert(piece_of(ps@[0], f[0]) && piece_of(ps@[1], f[1]));
                assert(piece_of(ps@[n - 2], f[n - 2]) && piece_of(ps@[n - 1], f[n - 1]));
                assert(f.skip(2) =~= f.subrange(2, n as int));
                assert(f.take(n - 2) =~= f.subrange(0, n - 2));
            }
        }
        let k = first_non_group(ps, Ghost(f));
        assert(piece_of(ps@[k as int], f[k as int]));
        assert(f.take(k as int) =~= f.subrange(0, k as int));
        assert(all_groups(f.take(k as int))) by {
            assert forall|i: int| 0 <= i < k implies is_group(#[trigger] f.take(k as int)[i]) by {
                assert(f.take(k as int)[i] == f[i]);
            }
        }
        proof {
            assert forall|k2: int| elided_at(f, width as nat, k2) implies k2 == k by {
                if k2 < k {
                    assert(is_group(f[k2]));
                } else if k2 > k {
                    assert(f.take(k2)[k as int] == f[k as int]);
                }
            }
        }
        if 0 < k && k + 1 < n && n <= width && ps[k].len == 0 && groups_in(ps, k + 1, n, Ghost(f)) {
            assert(f.skip(k + 1) =~= f.subrange(k + 1, n as int));
            assert(elided_at(f, width as nat, k as int));
            push_values(ps, 0, k, &mut out, Ghost(f));
            push_zeros(&mut out, width + 1 - n);
            push_values(ps, k + 1, n, &mut out, Ghost(f));
            assert(out@ =~= group_values(f.take(k as int)) + zeros((width + 1 - n) as nat)
                + group_values(f.skip(k + 1)));
            Some(out)
        } else {
            proof {
                if k + 1 < n {
                    assert(f.skip(k + 1) =~= f.subrange(k + 1, n as int));
                }
                assert(!elided_at(f, width as nat, k as int));
            }
            None
        }
    }
}

/// The last piece of `s` is what follows its last separator.
proof fn lemma_last_piece(s: Seq<char>, sep: char)
    ensures
        split_on(s, sep).len() >= 1,
        split_on(s, sep).last().len() <= s.len(),
        split_on(s, sep).last() == s.skip(s.len() - split_on(s, sep).last().len()),
    decreases s.len(),
{
    if s.len() == 0 {
        assert(s.skip(0) =~= s);
    } else {
        let p = s.drop_last();
        lemma_last_piece(p, sep);
        let g = split_on(p, sep).last();
        if s.last() == sep {
            assert(s.skip(s.len() as int) =~= Seq::<char>::empty());
        } else {
            assert(s.skip(s.len() - g.len() - 1) =~= g.push(s.last()));
        }
    }
}

spec fn pow10(n: nat) -> nat
    decreases n,
{
    if n == 0 {
        1
    } else {
        10 * pow10((n - 1) as nat)
    }
}

proof fn lemma_decimal_value_bound(d: Seq<char>)
    requires
        all_decimal(d),
    ensures
        decimal_value(d) < pow10(d.len()),
    decreases d.len(),
{
    if d.len() > 0 {
        let h = d.drop_last();
        assert(all_decimal(h)) by {
            assert forall|i: int| 0 <= i < h.len() implies is_decimal_digit(#[trigger] h[i]) by {
                assert(h[i] == d[i]);
            }
        }
        lemma_decimal_value_bound(h);
        assert(is_decimal_digit(d[d.len() - 1]));
    }
}

/// What the parser knows of one piece between dots.
struct OctetText {
    len: usize,
    decimal: bool,
    lead_zero: bool,
    value: u32,
}

spec fn octet_text_of(p: OctetText, o: Seq<char>) -> bool {
    &&& p.len == o.len()
    &&& p.decimal == all_decimal(o)
    &&& (o.len() > 0 ==> p.lead_zero == (o[0] == '0'))
    &&& (p.decimal && o.len() <= 3 ==> p.value == decimal_value(o))
}

/// Splits `t` at its dots and reads each piece.
fn split_octets(t: &Vec<char>) -> (r: Vec<OctetText>)
    ensures
        r@.len() == split_on(t@, '.').len(),
        forall|j: int| 0 <= j < r@.len() ==> octet_text_of(#[trigger] r@[j], split_on(t@, '.')[j]),
{
    let mut done: Vec<OctetText> = Vec::new();
    let mut cur = OctetText { len: 0, decimal: true, lead_zero: false, value: 0 };
    let mut i: usize = 0;
    assert(t@.take(0) =~= Seq::<char>::empty());
    while i < t.len()
        invariant
            i <= t@.len(),
            split_on(t@.take(i as int), '.').len() == done@.len() + 1,
            forall|j: int|
                0 <= j < done@.len() ==> octet_text_of(
                    #[trigger] done@[j],
                    split_on(t@.take(i as int), '.')[j],
                ),
            octet_text_of(cur, split_on(t@.take(i as int), '.').last()),
            cur.len <= i,
        decreases t@.len() - i,
    {
        let c = t[i];
        let ghost before = split_on(t@.take(i as int), '.');
        let ghost u = t@.take(i + 1);
        assert(u.drop_last() =~= t@.take(i as int));
        assert(u.last() == c);
        if c == '.' {
            let ghost prev = done@;
            done.push(cur);
            cur = OctetText { len: 0, decimal: true, lead_zero: false, value: 0 };
            assert(split_on(u, '.') == before.push(Seq::empty()));
            assert forall|j: int| 0 <= j < done@.len() implies octet_text_of(
                #[trigger] done@[j],
                split_on(u, '.')[j],
            ) by {
                if j < done@.len() - 1 {
                    assert(done@[j] == prev[j]);
                }
            }
        } else {
            let ghost g = before.last();
            let ghost ng = g.push(c);
            assert(split_on(u, '.') == before.update(before.len() - 1, ng));
            assert(ng.drop_last() =~= g);
            let digit = '0' <= c && c <= '9';
            let mut nv = cur.value;
            if cur.decimal && digit && cur.len < 3 {
                proof {
                    lemma_decimal_value_bound(g);
                    reveal_with_fuel(pow10, 3);
                    assert(decimal_value(g) < 100);
                }
                nv = cur.value * 10 + (c as u32 - '0' as u32);
            }
            proof {
                if cur.decimal && digit {
                    assert forall|k: int| 0 <= k < ng.len() implies is_decimal_digit(
                        #[trigger] ng[k],
                    ) by {
                        if k < g.len() {
                            assert(ng[k] == g[k]);
                        }
                    }
                }
                if !cur.decimal {
                    let k = choose|k: int| 0 <= k < g.len() && !is_decimal_digit(#[trigger] g[k]);
                    assert(ng[k] == g[k]);
                }
                if !digit {
                    assert(!is_decimal_digit(ng[ng.len() - 1]));
                }
                if g.len() > 0 {
                    assert(ng[0] == g[0]);
                }
            }
            let lead_zero = if cur.len == 0 {
                c == '0'
            } else {
                cur.lead_zero
            };
            cur = OctetText { len: cur.len + 1, decimal: cur.decimal && digit, lead_zero, value: nv };
        }
        i = i + 1;
    }
    assert(t@.take(i as int) =~= t@);
    done.push(cur);
    done
}

fn octet_ok(p: &OctetText, Ghost(o): Ghost<Seq<char>>) -> (r: bool)
    requires
        octet_text_of(*p, o),
    ensures
        r == is_octet(o),
        r ==> p.value == decimal_value(o),
{
    p.decimal && 1 <= p.len && p.len <= 3 && !(p.len > 1 && p.lead_zero) && p.value <= 255
}

/// Reads a dotted IPv4 address as the two segments it stands for.
fn parse_ipv4(t: &Vec<char>) -> (r: Option<(u16, u16)>)
    ensures
        match r {
            Some((high, low)) => is_ipv4(t@) && seq![high, low] == ipv4_segments(t@),
            None => !is_ipv4(t@),
        },
{
    let os = split_octets(t);
    let ghost o = split_on(t@, '.');
    if os.len() != 4 {
        return None;
    }
    assert(octet_text_of(os@[0], o[0]) && octet_text_of(os@[1], o[1]));
    assert(octet_text_of(os@[2], o[2]) && octet_text_of(os@[3], o[3]));
    if octet_ok(&os[0], Ghost(o[0])) && octet_ok(&os[1], Ghost(o[1])) && octet_ok(
        &os[2],
        Ghost(o[2]),
    ) && octet_ok(&os[3], Ghost(o[3])) {
        let high = (os[0].value * 256 + os[1].value) as u16;
        let low = (os[2].value * 256 + os[3].value) as u16;
        assert(seq![high, low] =~= ipv4_segments(t@));
        Some((high, low))
    } else {
        None
    }
}

/// The characters of `s` from `lo` to the end.
fn copy_tail(s: &Vec<char>, lo: usize) -> (r: Vec<char>)
    requires
        lo <= s@.len(),
    ensures
        r@ == s@.skip(lo as int),
{
    let mut r: Vec<char> = Vec::new();
    let mut i: usize = lo;
    while i < s.len()
        invariant
            lo <= i <= s@.len(),
            r@ == s@.subrange(lo as int, i as int),
        decreases s@.len() - i,
    {
        r.push(s[i]);
        assert(r@ =~= s@.subrange(lo as int, i + 1));
        i = i + 1;
    }
    assert(r@ =~= s@.skip(lo as int));
    r
}

/// Every address that a text denotes has eight segments.
pub proof fn lemma_address_has_eight_segments(s: Seq<char>)
    requires
        address_of(s) is Some,
    ensures
        address_of(s)->0.len() == 8,
{
    let f = fields(s);
    if f.len() >= 1 && is_ipv4(f.last()) {
        lemma_groups_address_width(f.update(f.len() - 1, seq!['0']), 7);
    } else {
        lemma_groups_address_width(f, 8);
    }
}

/// Reads the text form of an IPv6 address into its eight segments.
pub fn parse_address(s: &Vec<char>) -> (r: Option<Vec<u16>>)
    ensures
        r is Some <==> address_of(s@) is Some,
        r is Some ==> r->0@ == address_of(s@)->0,
        r is Some ==> r->0@.len() == 8,
{
    let ghost f = fields(s@);
    proof {
        lemma_last_piece(s@, ':');
        if address_of(s@) is Some {
            lemma_address_has_eight_segments(s@);
        }
    }
    let mut ps = split_pieces(s);
    let n = ps.len();
    assert(piece_of(ps@[n - 1], f[n - 1]));
    let start = s.len() - ps[n - 1].len;
    let tail = copy_tail(s, start);
    match parse_ipv4(&tail) {
        None => {
            proof {
                if groups_address(f, 8) is Some {
                    lemma_groups_address_width(f, 8);
                }
            }
            assemble(&ps, 8, Ghost(f))
        },
        Some((high, low)) => {
            let ghost f2 = f.update(n - 1, seq!['0']);
            ps.pop();
            ps.push(Piece { len: 1, hex: true, value: 0 });
            proof {
                let z = seq!['0'];
                assert(z.drop_last() =~= Seq::<char>::empty());
                assert(z.last() == '0');
                assert(group_value(z.drop_last()) == 0);
                assert(hex_digit_value('0') == 0);
                assert(group_value(z) == 0);
                assert(all_hex(z));
                assert(piece_of(ps@[n - 1], f2[n - 1]));
                assert forall|j: int| 0 <= j < ps@.len() implies piece_of(#[trigger] ps@[j], f2[j]) by {
                    if j < n - 1 {
                        assert(piece_of(ps@[j], f[j]));
                    }
                }
                if groups_address(f2, 7) is Some {
                    lemma_groups_address_width(f2, 7);
                }
            }
            match assemble(&ps, 7, Ghost(f2)) {
                None => None,
                Some(mut v) => {
                    let ghost a = v@;
                    v.pop();
                    v.push(high);
                    v.push(low);
                    assert(v@ =~= a.drop_last() + ipv4_segments(f.last()));
                    Some(v)
                },
            }
        },
    }
}

} // verus!
