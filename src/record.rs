use crate::error::ScheduleError;
use crate::graph::{names_of, TaskMap, TaskMapView};
use vstd::prelude::*;

verus! {

/// The pieces of `s` between occurrences of `sep`, as `str::split` yields
/// them: `k` separators give `k + 1` pieces, any of which may be empty.
pub open spec fn split_on(s: Seq<char>, sep: char) -> Seq<Seq<char>>
    decreases s.len(),
{
    if s.len() == 0 {
        seq![Seq::empty()]
    } else {
        let r = split_on(s.drop_last(), sep);
        if s.last() == sep {
            r.push(Seq::empty())
        } else {
            r.update(r.len() - 1, r.last().push(s.last()))
        }
    }
}

pub open spec fn is_digit(c: char) -> bool {
    '0' <= c && c <= '9'
}

pub open spec fn all_digits(s: Seq<char>) -> bool {
    forall|i: int| 0 <= i < s.len() ==> is_digit(#[trigger] s[i])
}

/// The number that a string of decimal digits denotes.
pub open spec fn digits_value(s: Seq<char>) -> nat
    decreases s.len(),
{
    if s.len() == 0 {
        0
    } else {
        digits_value(s.drop_last()) * 10 + (s.last() as nat - '0' as nat) as nat
    }
}

/// `s` without one leading `+`, if it has one.
pub open spec fn unsigned_part(s: Seq<char>) -> Seq<char> {
    if s.len() > 0 && s[0] == '+' {
        s.drop_first()
    } else {
        s
    }
}

/// The duration that a field denotes: an optional `+` and at least one
/// decimal digit, with a value that fits in `u32`.
pub open spec fn duration_of(s: Seq<char>) -> Option<u32> {
    let d = unsigned_part(s);
    if d.len() > 0 && all_digits(d) && digits_value(d) <= u32::MAX {
        Some(digits_value(d) as u32)
    } else {
        None
    }
}

/// The dependency names of a record split into fields.
pub open spec fn record_deps(fields: Seq<Seq<char>>) -> Seq<Seq<char>> {
    if fields.len() == 3 {
        split_on(fields[2], ',')
    } else {
        Seq::empty()
    }
}

/// What ingesting the record `line` into `v` returns: the first failing
/// check among the shape of the record, the identifier, the duration and
/// the dependencies.
pub open spec fn entry_result(v: TaskMapView, line: Seq<char>) -> Result<(), ScheduleError> {
    let f = split_on(line, ' ');
    if !(f.len() == 2 || f.len() == 3) {
        Err(ScheduleError::MalformedRecord)
    } else if v.has_id(f[0]) {
        Err(ScheduleError::DuplicateId)
    } else if duration_of(f[1]) is None {
        Err(ScheduleError::InvalidDuration)
    } else {
        v.insert_result(f[0], record_deps(f))
    }
}

/// Splits `s` at every `sep`.
pub fn split(s: &str, sep: char) -> (r: Vec<String>)
    ensures
        names_of(r@) == split_on(s@, sep),
{
    let n = s.unicode_len();
    let mut pieces: Vec<String> = Vec::new();
    let mut from: usize = 0;
    let mut i: usize = 0;
    assert(s@.take(0) =~= Seq::<char>::empty());
    assert(names_of(pieces@).push(s@.subrange(0, 0)) =~= seq![Seq::<char>::empty()]);
    while i < n
        invariant
            n == s@.len(),
            from <= i <= n,
            split_on(s@.take(i as int), sep) == names_of(pieces@).push(
                s@.subrange(from as int, i as int),
            ),
        decreases n - i,
    {
        let c = s.get_char(i);
        assert(s@.take(i + 1).drop_last() =~= s@.take(i as int));
        assert(s@.take(i + 1).last() == c);
        let ghost prev = pieces@;
        if c == sep {
            let piece = s.substring_char(from, i).to_string();
            pieces.push(piece);
            assert(names_of(pieces@) =~= names_of(prev).push(s@.subrange(from as int, i as int)));
            from = i + 1;
            assert(s@.subrange(from as int, i + 1) =~= Seq::<char>::empty());
        } else {
            assert(s@.subrange(from as int, i + 1) =~= s@.subrange(from as int, i as int).push(c));
            assert(names_of(pieces@).push(s@.subrange(from as int, i + 1)) =~= names_of(
                pieces@,
            ).push(s@.subrange(from as int, i as int)).update(
                names_of(pieces@).len() as int,
                s@.subrange(from as int, i as int).push(c),
            ));
        }
        i = i + 1;
    }
    let ghost prev = pieces@;
    let piece = s.substring_char(from, n).to_string();
    pieces.push(piece);
    assert(s@.take(n as int) =~= s@);
    assert(names_of(pieces@) =~= names_of(prev).push(s@.subrange(from as int, n as int)));
    pieces
}

proof fn lemma_digits_prefix(d: Seq<char>, m: int)
    requires
        0 <= m <= d.len(),
        all_digits(d),
    ensures
        digits_value(d.take(m)) <= digits_value(d),
    decreases d.len(),
{
    if m < d.len() {
        assert(all_digits(d.drop_last()));
        assert(d.drop_last().take(m) =~= d.take(m));
        lemma_digits_prefix(d.drop_last(), m);
    } else {
        assert(d.take(m) =~= d);
    }
}

/// Reads a duration field.
pub fn parse_duration(s: &str) -> (r: Option<u32>)
    ensures
        r == duration_of(s@),
{
    let n = s.unicode_len();
    let mut from: usize = 0;
    if n > 0 && s.get_char(0) == '+' {
        from = 1;
    }
    let ghost d = unsigned_part(s@);
    assert(d =~= s@.subrange(from as int, n as int));
    if from == n {
        return None;
    }
    let mut acc: u64 = 0;
    let mut k: usize = from;
    while k < n
        invariant
            n == s@.len(),
            d == unsigned_part(s@),
            d == s@.subrange(from as int, n as int),
            from <= k <= n,
            acc <= u32::MAX,
            acc == digits_value(d.take(k - from)),
            all_digits(d.take(k - from)),
        decreases n - k,
    {
        let c = s.get_char(k);
        assert(d[k - from] == c);
        assert(d.take(k - from + 1).drop_last() =~= d.take(k - from));
        if !('0' <= c && c <= '9') {
            assert(!all_digits(d));
            return None;
        }
        assert(all_digits(d.take(k - from + 1)));
        acc = acc * 10 + (c as u64 - '0' as u64);
        k = k + 1;
        if acc > u32::MAX as u64 {
            proof {
                if all_digits(d) {
                    lemma_digits_prefix(d, k - from);
                }
            }
            return None;
        }
    }
    assert(d.take(k - from) =~= d);
    Some(acc as u32)
}

/// Ingests one record of the form `ID DURATION` or `ID DURATION DEP,DEP,..`
/// (fields separated by single spaces, dependencies by commas).  On
/// failure the registry is left as it was.
pub fn add_entry(line: &str, map: &mut TaskMap) -> (r: Result<(), ScheduleError>)
    requires
        old(map).wf(),
    ensures
        final(map).wf(),
        r == entry_result(old(map)@, line@),
        r is Ok ==> ({
            let f = split_on(line@, ' ');
            old(map)@.inserted(final(map)@, f[0], duration_of(f[1])->0, record_deps(f))
        }),
        r is Err ==> final(map)@ == old(map)@,
{
    let fields = split(line, ' ');
    let ghost f = split_on(line@, ' ');
    assert(fields@.len() == f.len());
    if !(fields.len() == 2 || fields.len() == 3) {
        return Err(ScheduleError::MalformedRecord);
    }
    assert(fields@[0]@ == f[0] && fields@[1]@ == f[1]);
    if map.find(&fields[0]).is_some() {
        return Err(ScheduleError::DuplicateId);
    }
    let duration = match parse_duration(fields[1].as_str()) {
        Some(d) => d,
        None => {
            return Err(ScheduleError::InvalidDuration);
        },
    };
    let deps = if fields.len() == 3 {
        assert(fields@[2]@ == f[2]);
        split(fields[2].as_str(), ',')
    } else {
        let none: Vec<String> = Vec::new();
        assert(names_of(none@) =~= Seq::<Seq<char>>::empty());
        none
    };
    map.insert(fields[0].clone(), duration, &deps)
}

} // verus!
