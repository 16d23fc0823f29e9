use vstd::prelude::*;

use vstd::string::*;

use crate::ipv6::{
    address_of, lemma_address_has_eight_segments, all_decimal, decimal_value, is_decimal_digit, 
    parse_address, Ipv6Address,
};

verus! {

/// The reserved domain under which a host name spells out an IPv6 address.
pub open spec fn literal_suffix() -> Seq<char> {
    seq!['.', 'i', 'p', 'v', '6', '-', 'l', 'i', 't', 'e', 'r', 'a', 'l', '.', 'n', 'e', 't']
}

pub open spec fn is_literal_name(name: Seq<char>) -> bool {
    name.len() >= literal_suffix().len() && name.skip(name.len() - literal_suffix().len())
        == literal_suffix()
}

/// The name with the suffix taken off once.
pub open spec fn trim_suffix(name: Seq<char>) -> Seq<char> {
    name.take(name.len() - literal_suffix().len())
}

/// Every hyphen turned into a colon.
pub open spec fn colon_form(s: Seq<char>) -> Seq<char> {
    s.map_values(|c: char| if c == '-' { ':' } else { c })
}

/// `k` is the position of the first `s` in `t`.
pub open spec fn first_zone_mark(t: Seq<char>, k: int) -> bool {
    &&& 0 <= k < t.len()
    &&& t[k] == 's'
    &&& forall|j: int| 0 <= j < k ==> t[j] != 's'
}

/// What stands before the first `s`, or all of `t` where there is none.
pub open spec fn address_part(t: Seq<char>) -> Seq<char> {
    if exists|k: int| first_zone_mark(t, k) {
        t.take(choose|k: int| first_zone_mark(t, k))
    } else {
        t
    }
}

/// What stands after the first `s`, if there is one.
pub open spec fn zone_part(t: Seq<char>) -> Option<Seq<char>> {
    if exists|k: int| first_zone_mark(t, k) {
        Some(t.skip((choose|k: int| first_zone_mark(t, k)) + 1))
    } else {
        None
    }
}

/// The digits of an unsigned number: one leading `+` is allowed.
pub open spec fn unsigned_digits(z: Seq<char>) -> Seq<char> {
    if z.len() > 0 && z[0] == '+' {
        z.skip(1)
    } else {
        z
    }
}

/// The zone read as a 32-bit unsigned decimal number.
pub open spec fn zone_number(z: Seq<char>) -> Option<u32> {
    let d = unsigned_digits(z);
    if d.len() >= 1 && all_decimal(d) && decimal_value(d) <= u32::MAX {
        Some(decimal_value(d) as u32)
    } else {
        None
    }
}

/// Every character is in the single-byte ASCII range.
pub open spec fn all_ascii(z: Seq<char>) -> bool {
    forall|i: int| 0 <= i < z.len() ==> (#[trigger] z[i] as u32) < 128
}

/// Why a literal host name does not resolve.
#[derive(PartialEq, Eq, Structural, Debug, Clone, Copy)]
pub enum LiteralError {
    /// Nothing stands where the address should be.
    MissingAddress,
    /// The address is not the text form of an IPv6 address.
    MalformedAddress,
    /// The interface name holds a NUL character.
    InteriorNul,
    /// The zone is neither a number nor the name of an interface of this host.
    InvalidZone,
}

impl LiteralError {
    /// A sentence for people that says what is wrong with the name.
    pub fn message(&self) -> (r: &'static str)
        ensures
            *self == LiteralError::MissingAddress ==> r@
                == "ipv6-literal.net address must contain an IPv6 address"@,
            *self == LiteralError::MalformedAddress ==> r@ == "invalid IPv6 address syntax"@,
            *self == LiteralError::InteriorNul ==> r@
                == "invalid IPv6 zone identifier (interior NUL)"@,
            *self == LiteralError::InvalidZone ==> r@ == "invalid IPv6 zone identifier"@,
            r@.len() > 0,
    {
        proof {
            reveal_strlit("ipv6-literal.net address must contain an IPv6 address");
            reveal_strlit("invalid IPv6 address syntax");
            reveal_strlit("invalid IPv6 zone identifier (interior NUL)");
            reveal_strlit("invalid IPv6 zone identifier");
        }
        match self {
            LiteralError::MissingAddress => "ipv6-literal.net address must contain an IPv6 address",
            LiteralError::MalformedAddress => "invalid IPv6 address syntax",
            LiteralError::InteriorNul => "invalid IPv6 zone identifier (interior NUL)",
            LiteralError::InvalidZone => "invalid IPv6 zone identifier",
        }
    }
}

/// A zone as the contracts speak of it.
pub enum ZoneModel {
    Absent,
    Index(u32),
    Interface(Seq<char>),
}

/// The zone of a literal name, as far as it can be read without asking the host.
pub enum Zone {
    Absent,
    Index(u32),
    /// An interface name, to be turned into an index by the host.
    Interface(Vec<char>),
}

impl View for Zone {
    type V = ZoneModel;

    open spec fn view(&self) -> ZoneModel {
        match self {
            Zone::Absent => ZoneModel::Absent,
            Zone::Index(n) => ZoneModel::Index(*n),
            Zone::Interface(v) => ZoneModel::Interface(v@),
        }
    }
}

/// The zone part read as a scope id, or as an interface name still to be looked up.
pub open spec fn zone_of(z: Option<Seq<char>>) -> Result<ZoneModel, LiteralError> {
    match z {
        None => Ok(ZoneModel::Absent),
        Some(z) => match zone_number(z) {
            Some(n) => Ok(ZoneModel::Index(n)),
            None => if !all_ascii(z) {
                Err(LiteralError::InvalidZone)
            } else if z.contains('\0') {
                Err(LiteralError::InteriorNul)
            } else {
                Ok(ZoneModel::Interface(z))
            },
        },
    }
}

/// What a name asks for: `Ok(None)` hands it to the fallback resolver, `Ok(Some((a, z)))`
/// is the address `a` with the zone `z`.
pub open spec fn plan_of(name: Seq<char>) -> Result<Option<(Seq<u16>, ZoneModel)>, LiteralError> {
    if !is_literal_name(name) {
        Ok(None)
    } else {
        let t = colon_form(trim_suffix(name));
        let a = address_part(t);
        if a.len() == 0 {
            Err(LiteralError::MissingAddress)
        } else {
            match address_of(a) {
                None => Err(LiteralError::MalformedAddress),
                Some(segments) => match zone_of(zone_part(t)) {
                    Err(e) => Err(e),
                    Ok(z) => Ok(Some((segments, z))),
                },
            }
        }
    }
}

/// The scope id of a zone, given the index that the host reports for an interface name
/// (0 where it has no such interface).
pub open spec fn scope_of(zone: ZoneModel, interface_index: u32) -> Result<u32, LiteralError> {
    match zone {
        ZoneModel::Absent => Ok(0),
        ZoneModel::Index(n) => Ok(n),
        ZoneModel::Interface(_) => if interface_index == 0 {
            Err(LiteralError::InvalidZone)
        } else {
            Ok(interface_index)
        },
    }
}

/// The address and scope id that a name resolves to, `Ok(None)` where it is not a
/// literal name.
pub open spec fn resolve_of(name: Seq<char>, interface_index: u32) -> Result<
    Option<(Seq<u16>, u32)>,
    LiteralError,
> {
    match plan_of(name) {
        Err(e) => Err(e),
        Ok(None) => Ok(None),
        Ok(Some((a, z))) => match scope_of(z, interface_index) {
            Err(e) => Err(e),
            Ok(scope) => Ok(Some((a, scope))),
        },
    }
}

/// The query a literal name stands for: its address, and its zone as far as it can be
/// read without asking the host.
pub struct LiteralQuery {
    pub address: Ipv6Address,
    pub zone: Zone,
}

/// What to do with a name.
pub enum Resolution {
    /// Not a literal name: hand it to the fallback resolver unchanged.
    Delegate,
    Literal(LiteralQuery),
}

impl View for Resolution {
    type V = Option<(Seq<u16>, ZoneModel)>;

    open spec fn view(&self) -> Option<(Seq<u16>, ZoneModel)> {
        match self {
            Resolution::Delegate => None,
            Resolution::Literal(q) => Some((q.address.segments@, q.zone@)),
        }
    }
}

/// An IPv6 socket address: address, port, flow label and scope id.
pub struct SocketAddress {
    pub address: Ipv6Address,
    pub port: u16,
    pub flowinfo: u32,
    pub scope_id: u32,
}

/// Resolves host names of the form `<address with - for :>[s<zone>].ipv6-literal.net`
/// locally, and hands every other name to a fallback resolver.
pub struct Ipv6LiteralResolver;

fn chars_of(name: &str) -> (r: Vec<char>)
    ensures
        r@ == name@,
{
    let n = name.unicode_len();
    let mut r: Vec<char> = Vec::new();
    let mut i: usize = 0;
    while i < n
        invariant
            n == name@.len(),
            i <= n,
            r@ == name@.take(i as int),
        decreases n - i,
    {
        r.push(name.get_char(i));
        assert(r@ =~= name@.take(i + 1));
        i = i + 1;
    }
    assert(r@ =~= name@);
    r
}

fn suffix_chars() -> (r: Vec<char>)
    ensures
        r@ == literal_suffix(),
{
    let r = vec!['.', 'i', 'p', 'v', '6', '-', 'l', 'i', 't', 'e', 'r', 'a', 'l', '.', 'n', 'e', 't'];
    assert(r@ =~= literal_suffix());
    r
}

/// Whether the first `end` characters of `s` end with the suffix.
fn ends_with_suffix(s: &Vec<char>, end: usize, suffix: &Vec<char>) -> (r: bool)
    requires
        end <= s@.len(),
        suffix@ == literal_suffix(),
    ensures
        r == is_literal_name(s@.take(end as int)),
{
    let n = suffix.len();
    if end < n {
        return false;
    }
    let start = end - n;
    let ghost tail = s@.take(end as int).skip(start as int);
    let mut i: usize = 0;
    while i < n
        invariant
            n == suffix@.len(),
            suffix@ == literal_suffix(),
            start + n == end <= s@.len(),
            i <= n,
            tail == s@.take(end as int).skip(start as int),
            forall|j: int| 0 <= j < i ==> tail[j] == suffix@[j],
        decreases n - i,
    {
        assert(tail[i as int] == s@[start + i]);
        if s[start + i] != suffix[i] {
            assert(tail[i as int] != literal_suffix()[i as int]);
            assert(tail != literal_suffix());
            return false;
        }
        i = i + 1;
    }
    assert(tail =~= suffix@);
    true
}

/// The characters of `v` from `lo` up to `hi`.
fn copy_range(v: &Vec<char>, lo: usize, hi: usize) -> (r: Vec<char>)
    requires
        lo <= hi <= v@.len(),
    ensures
        r@ == v@.subrange(lo as int, hi as int),
{
    let mut r: Vec<char> = Vec::new();
    let mut i: usize = lo;
    while i < hi
        invariant
            lo <= i <= hi,
            hi <= v@.len(),
            r@ == v@.subrange(lo as int, i as int),
        decreases hi - i,
    {
        r.push(v[i]);
        assert(r@ =~= v@.subrange(lo as int, i + 1));
        i = i + 1;
    }
    r
}

/// The first `end` characters of `s`, each hyphen turned into a colon.
fn colon_text(s: &Vec<char>, end: usize) -> (r: Vec<char>)
    requires
        end <= s@.len(),
    ensures
        r@ == colon_form(s@.take(end as int)),
{
    let mut r: Vec<char> = Vec::new();
    let mut i: usize = 0;
    while i < end
        invariant
            i <= end <= s@.len(),
            r@ == colon_form(s@.take(end as int)).take(i as int),
        decreases end - i,
    {
        let c = s[i];
        if c == '-' {
            r.push(':');
        } else {
            r.push(c);
        }
        assert(r@ =~= colon_form(s@.take(end as int)).take(i + 1));
        i = i + 1;
    }
    assert(r@ =~= colon_form(s@.take(end as int)));
    r
}

/// Reads `z` as a 32-bit unsigned decimal number.
fn parse_zone_number(z: &Vec<char>) -> (r: Option<u32>)
    ensures
        r == zone_number(z@),
{
    let start: usize = if z.len() > 0 && z[0] == '+' {
        1
    } else {
        0
    };
    let ghost d = unsigned_digits(z@);
    assert(d =~= z@.skip(start as int));
    if start >= z.len() {
        assert(d.len() == 0);
        return None;
    }
    let cap: u64 = 0x1_0000_0000;
    let mut acc: u64 = 0;
    let mut i: usize = start;
    assert(d.take(0) =~= Seq::<char>::empty());
    while i < z.len()
        invariant
            start <= i <= z@.len(),
            d == z@.skip(start as int),
            d == unsigned_digits(z@),
            cap == 0x1_0000_0000,
            forall|j: int| 0 <= j < i - start ==> is_decimal_digit(#[trigger] d[j]),
            acc == if decimal_value(d.take(i - start)) < cap {
                decimal_value(d.take(i - start))
            } else {
                cap as nat
            },
        decreases z@.len() - i,
    {
        let c = z[i];
        assert(d[i - start] == c);
        if !('0' <= c && c <= '9') {
            assert(!is_decimal_digit(d[i - start]));
            assert(!all_decimal(d));
            return None;
        }
        let ghost p = d.take(i - start);
        let ghost q = d.take(i - start + 1);
        assert(q.drop_last() =~= p);
        let digit = (c as u32 - '0' as u32) as u64;
        let next = acc * 10 + digit;
        acc = if next < cap {
            next
        } else {
            cap
        };
        i = i + 1;
    }
    assert(d.take(i - start) =~= d);
    if acc < cap {
        Some(acc as u32)
    } else {
        None
    }
}

fn is_ascii_text(z: &Vec<char>) -> (r: bool)
    ensures
        r == all_ascii(z@),
{
    let mut i: usize = 0;
    while i < z.len()
        invariant
            i <= z@.len(),
            forall|j: int| 0 <= j < i ==> (#[trigger] z@[j] as u32) < 128,
        decreases z@.len() - i,
    {
        if z[i] as u32 >= 128 {
            return false;
        }
        i = i + 1;
    }
    true
}

fn has_nul(z: &Vec<char>) -> (r: bool)
    ensures
        r == z@.contains('\0'),
{
    let mut i: usize = 0;
    while i < z.len()
        invariant
            i <= z@.len(),
            forall|j: int| 0 <= j < i ==> z@[j] != '\0',
        decreases z@.len() - i,
    {
        if z[i] == '\0' {
            assert(z@[i as int] == '\0');
            return true;
        }
        i = i + 1;
    }
    false
}

/// Reads the text after the zone mark.
fn classify_zone(z: Vec<char>) -> (r: Result<Zone, LiteralError>)
    ensures
        match r {
            Ok(zone) => zone_of(Some(z@)) == Ok::<ZoneModel, LiteralError>(zone@),
            Err(e) => zone_of(Some(z@)) == Err::<ZoneModel, LiteralError>(e),
        },
{
    match parse_zone_number(&z) {
        Some(n) => Ok(Zone::Index(n)),
        None => if !is_ascii_text(&z) {
            Err(LiteralError::InvalidZone)
        } else if has_nul(&z) {
            Err(LiteralError::InteriorNul)
        } else {
            Ok(Zone::Interface(z))
        },
    }
}

impl Ipv6LiteralResolver {
    pub fn new() -> (r: Ipv6LiteralResolver) {
        Ipv6LiteralResolver
    }

    /// Reads `name`: a name outside the literal domain goes to the fallback resolver
    /// unchanged; a literal name gives its address and zone, or the reason it is invalid.
    pub fn plan(&self, name: &str) -> (r: Result<Resolution, LiteralError>)
        ensures
            !is_literal_name(name@) ==> r matches Ok(Resolution::Delegate),
            r matches Ok(Resolution::Literal(q)) ==> q.address.segments@.len() == 8,
            match r {
                Ok(res) => plan_of(name@) == Ok::<_, LiteralError>(res@),
                Err(e) => plan_of(name@) == Err::<Option<(Seq<u16>, ZoneModel)>, _>(e),
            },
    {
        let s = chars_of(name);
        let suffix = suffix_chars();
        let mut end = s.len();
        assert(s@.take(end as int) =~= s@);
        if !ends_with_suffix(&s, end, &suffix) {
            return Ok(Resolution::Delegate);
        }
        end = end - suffix.len();
        let text = colon_text(&s, end);
        let ghost t = colon_form(trim_suffix(name@));
        assert(text@ == t);
        let mut k: usize = 0;
        while k < text.len() && text[k] != 's'
            invariant
                k <= text@.len(),
                forall|j: int| 0 <= j < k ==> text@[j] != 's',
            decreases text@.len() - k,
        {
            k = k + 1;
        }
        let addr = copy_range(&text, 0, k);
        proof {
            if k < text@.len() {
                assert(first_zone_mark(t, k as int));
                assert forall|k2: int| first_zone_mark(t, k2) implies k2 == k by {
                    if k2 < k {
                        assert(t[k2] != 's');
                    } else if k2 > k {
                        assert(t[k as int] != 's');
                    }
                }
                assert(addr@ =~= address_part(t));
            } else {
                assert(!exists|k2: int| first_zone_mark(t, k2));
                assert(addr@ =~= address_part(t));
            }
        }
        if addr.len() == 0 {
            return Err(LiteralError::MissingAddress);
        }
        let segments = match parse_address(&addr) {
            None => {
                return Err(LiteralError::MalformedAddress);
            },
            Some(v) => v,
        };
        let zone = if k < text.len() {
            let z = copy_range(&text, k + 1, text.len());
            assert(z@ =~= zone_part(t)->0);
            match classify_zone(z) {
                Err(e) => {
                    return Err(e);
                },
                Ok(zone) => zone,
            }
        } else {
            Zone::Absent
        };
        Ok(Resolution::Literal(LiteralQuery { address: Ipv6Address { segments }, zone }))
    }

    /// Completes a literal query: `interface_index` is the index that the host reports
    /// for the zone's interface name, 0 where it has none; it is read only where the
    /// zone names an interface. The port is 0, for the caller to replace.
    pub fn finish(&self, query: LiteralQuery, interface_index: u32) -> (r: Result<
        SocketAddress,
        LiteralError,
    >)
        ensures
            match r {
                Ok(a) => {
                    &&& scope_of(query.zone@, interface_index) == Ok::<_, LiteralError>(a.scope_id)
                    &&& a.address.segments@ == query.address.segments@
                    &&& a.port == 0
                    &&& a.flowinfo == 0
                },
                Err(e) => scope_of(query.zone@, interface_index) == Err::<u32, _>(e),
            },
    {
        let scope_id = match query.zone {
            Zone::Absent => 0,
            Zone::Index(n) => n,
            Zone::Interface(_) => {
                if interface_index == 0 {
                    return Err(LiteralError::InvalidZone);
                }
                interface_index
            },
        };
        Ok(SocketAddress { address: query.address, port: 0, flowinfo: 0, scope_id })
    }

    /// Resolves `name` where the host's index for a zone's interface name is known:
    /// `Ok(None)` hands the name to the fallback resolver.
    pub fn resolve(&self, name: &str, interface_index: u32) -> (r: Result<
        Option<SocketAddress>,
        LiteralError,
    >)
        ensures
            !is_literal_name(name@) ==> r matches Ok(None),
            match r {
                Ok(None) => resolve_of(name@, interface_index) == Ok::<_, LiteralError>(
                    None::<(Seq<u16>, u32)>,
                ),
                Ok(Some(a)) => {
                    &&& resolve_of(name@, interface_index) == Ok::<_, LiteralError>(
                        Some((a.address.segments@, a.scope_id)),
                    )
                    &&& a.port == 0
                    &&& a.flowinfo == 0
                },
                Err(e) => resolve_of(name@, interface_index) == Err::<
                    Option<(Seq<u16>, u32)>,
                    _,
                >(e),
            },
    {
        match self.plan(name) {
            Err(e) => Err(e),
            Ok(Resolution::Delegate) => Ok(None),
            Ok(Resolution::Literal(query)) => match self.finish(query, interface_index) {
                Err(e) => Err(e),
                Ok(a) => Ok(Some(a)),
            },
        }
    }
}

/// Resolving a name twice gives the same outcome both times: what a name resolves to
/// depends on the name and on the host's index for its interface alone, and
/// resolution changes no state.
pub proof fn lemma_resolve_repeatable(first: Seq<char>, second: Seq<char>, interface_index: u32)
    requires
        first == second,
    ensures
        resolve_of(first, interface_index) == resolve_of(second, interface_index),
        plan_of(first) == plan_of(second),
{
}

/// A literal name is never handed to the fallback resolver: it resolves to exactly one
/// address, of eight segments, or fails.
pub proof fn lemma_literal_resolves_to_one(name: Seq<char>, interface_index: u32)
    requires
        is_literal_name(name),
    ensures
        resolve_of(name, interface_index) != Ok::<_, LiteralError>(None::<(Seq<u16>, u32)>),
        resolve_of(name, interface_index) matches Ok(Some((a, _))) ==> a.len() == 8,
{
    let t = colon_form(trim_suffix(name));
    if address_of(address_part(t)) is Some {
        lemma_address_has_eight_segments(address_part(t));
    }
}

} // verus!
