//! Segment files: the strict `wal-NNNN.bin` naming rule, sequence numbers,
//! and the names and paths of new segments.

use vstd::prelude::*;
use vstd::string::*;

verus! {

/// The final component of a path, as `std::path::Path::file_name` gives it.
pub uninterp spec fn file_name_of(path: Seq<char>) -> Option<Seq<char>>;

/// The path without its final component, as `std::path::Path::parent` gives it.
pub uninterp spec fn parent_of(path: Seq<char>) -> Option<Seq<char>>;

/// A path of one normal component on Unix: not empty, no `/`, not `.` or `..`.
pub open spec fn is_plain_name(path: Seq<char>) -> bool {
    &&& path.len() > 0
    &&& forall|i: int| 0 <= i < path.len() ==> path[i] != '/'
    &&& path != seq!['.']
    &&& path != seq!['.', '.']
}

/// A plain name comes back as its own file name.
pub open spec fn plain_name_kept(path: Seq<char>, r: Option<String>) -> bool {
    is_plain_name(path) ==> (r matches Some(n) && n@ == path)
}

/// Relies on `std::path::Path::file_name`: the final component of the path,
/// or none when the path is a root, is empty, or ends in `..`; a path of one
/// normal component is its own file name. (`/` is the separator: this
/// library targets Unix paths.)
#[verifier::external_body]
fn file_name(path: &str) -> (r: Option<String>)
    ensures
        match r {
            Some(n) => file_name_of(path@) == Some(n@),
            None => file_name_of(path@) is None,
        },
        plain_name_kept(path@, r),
{
    match std::path::Path::new(path).file_name() {
        Some(n) => Some(n.to_string_lossy().into_owned()),
        None => None,
    }
}

/// Relies on `std::path::Path::parent`: the path without its final
/// component, or none when the path is a root or empty.
#[verifier::external_body]
fn parent(path: &str) -> (r: Option<String>)
    ensures
        match r {
            Some(d) => parent_of(path@) == Some(d@),
            None => parent_of(path@) is None,
        },
{
    match std::path::Path::new(path).parent() {
        Some(d) => Some(d.to_string_lossy().into_owned()),
        None => None,
    }
}

pub open spec fn is_digit(c: char) -> bool {
    '0' <= c && c <= '9'
}

pub open spec fn digit_value(c: char) -> nat {
    (c as nat - '0' as nat) as nat
}

/// `wal-`, exactly four ASCII digits, `.bin`, and nothing else.
pub open spec fn valid_segment_name(name: Seq<char>) -> bool {
    &&& name.len() == 12
    &&& name[0] == 'w' && name[1] == 'a' && name[2] == 'l' && name[3] == '-'
    &&& is_digit(name[4]) && is_digit(name[5]) && is_digit(name[6]) && is_digit(name[7])
    &&& name[8] == '.' && name[9] == 'b' && name[10] == 'i' && name[11] == 'n'
}

/// The four digits of a segment name, read in base ten.
pub open spec fn segment_number(name: Seq<char>) -> nat {
    1000 * digit_value(name[4]) + 100 * digit_value(name[5]) + 10 * digit_value(name[6])
        + digit_value(name[7])
}

/// The sequence number of the segment that a path names, if its file name is a segment name.
pub open spec fn path_sequence(path: Seq<char>) -> Option<nat> {
    match file_name_of(path) {
        Some(n) => if valid_segment_name(n) {
            Some(segment_number(n))
        } else {
            None
        },
        None => None,
    }
}

/// The number of the segment that follows the one a path names; 0 for any other path.
pub open spec fn next_number(path: Seq<char>) -> nat {
    match path_sequence(path) {
        Some(n) => n + 1,
        None => 0,
    }
}

/// Whether a file name follows the segment naming rule.
pub fn is_segment_name(name: &str) -> (r: bool)
    ensures
        r == valid_segment_name(name@),
{
    if name.unicode_len() != 12 {
        return false;
    }
    let c0 = name.get_char(0);
    let c1 = name.get_char(1);
    let c2 = name.get_char(2);
    let c3 = name.get_char(3);
    let c4 = name.get_char(4);
    let c5 = name.get_char(5);
    let c6 = name.get_char(6);
    let c7 = name.get_char(7);
    let c8 = name.get_char(8);
    let c9 = name.get_char(9);
    let c10 = name.get_char(10);
    let c11 = name.get_char(11);
    c0 == 'w' && c1 == 'a' && c2 == 'l' && c3 == '-' && '0' <= c4 && c4 <= '9' && '0' <= c5 && c5
        <= '9' && '0' <= c6 && c6 <= '9' && '0' <= c7 && c7 <= '9' && c8 == '.' && c9 == 'b' && c10
        == 'i' && c11 == 'n'
}

fn digit_of(c: char) -> (r: u32)
    requires
        is_digit(c),
    ensures
        r == digit_value(c),
{
    (c as u32) - ('0' as u32)
}

/// The sequence number that a file name carries, if it is a segment name.
pub fn segment_sequence(name: &str) -> (r: Option<u32>)
    ensures
        match r {
            Some(n) => valid_segment_name(name@) && n == segment_number(name@),
            None => !valid_segment_name(name@),
        },
{
    if !is_segment_name(name) {
        return None;
    }
    let d4 = digit_of(name.get_char(4));
    let d5 = digit_of(name.get_char(5));
    let d6 = digit_of(name.get_char(6));
    let d7 = digit_of(name.get_char(7));
    Some(1000 * d4 + 100 * d5 + 10 * d6 + d7)
}

/// Whether a path names a segment file: its final component follows the naming rule.
pub fn is_wal_file(path: &str) -> (r: bool)
    ensures
        r == (path_sequence(path@) is Some),
        is_plain_name(path@) ==> r == valid_segment_name(path@),
{
    match file_name(path) {
        Some(n) => is_segment_name(n.as_str()),
        None => false,
    }
}

/// The sequence number of the segment that a path names.
pub fn get_wal_sequence(path: &str) -> (r: Option<u32>)
    ensures
        match r {
            Some(n) => path_sequence(path@) == Some(n as nat),
            None => path_sequence(path@) is None,
        },
        is_plain_name(path@) ==> (r is Some <==> valid_segment_name(path@)),
        is_plain_name(path@) && valid_segment_name(path@) ==> r == Some(
            segment_number(path@) as u32,
        ),
{
    match file_name(path) {
        Some(n) => segment_sequence(n.as_str()),
        None => None,
    }
}

/// The number that the segment after the one `path` names gets; 0 when
/// `path` does not name a segment.
pub fn get_next_number_of_wal(path: &str) -> (r: u32)
    ensures
        r == next_number(path@),
        is_plain_name(path@) ==> r == if valid_segment_name(path@) {
            segment_number(path@) + 1
        } else {
            0
        },
{
    match get_wal_sequence(path) {
        Some(n) => n + 1,
        None => 0,
    }
}

/// The largest sequence number among the paths that name segments.
pub open spec fn max_sequence(paths: Seq<String>) -> Option<nat>
    decreases paths.len(),
{
    if paths.len() == 0 {
        None
    } else {
        let rest = max_sequence(paths.drop_last());
        match (rest, path_sequence(paths.last()@)) {
            (Some(a), Some(b)) => Some(if a >= b { a } else { b }),
            (None, b) => b,
            (a, None) => a,
        }
    }
}

/// The first sequence number that no listed segment uses and that follows all of them.
pub open spec fn first_unused(paths: Seq<String>) -> nat {
    match max_sequence(paths) {
        Some(m) => m + 1,
        None => 0,
    }
}

proof fn lemma_max_sequence_bounds(paths: Seq<String>)
    ensures
        forall|i: int| #![trigger paths[i]]
            0 <= i < paths.len() && path_sequence(paths[i]@) is Some ==> max_sequence(paths) is Some
                && path_sequence(paths[i]@)->Some_0 <= max_sequence(paths)->Some_0,
        max_sequence(paths) matches Some(m) ==> m <= 9999,
    decreases paths.len(),
{
    if paths.len() > 0 {
        lemma_max_sequence_bounds(paths.drop_last());
        assert forall|i: int| #![trigger paths[i]]
            0 <= i < paths.len() - 1 implies paths[i] == paths.drop_last()[i] by {}
    }
}

/// The sequence number to start a log at, given the paths found in its
/// directory: one past the largest segment number among them, or 0 when
/// none of them names a segment.
pub fn get_initial_number_of_wal(paths: &Vec<String>) -> (r: u32)
    ensures
        r == first_unused(paths@),
        forall|i: int| #![trigger paths@[i]]
            0 <= i < paths@.len() && path_sequence(paths@[i]@) is Some ==> path_sequence(paths@[i]@)->Some_0 < r,
{
    let mut best: Option<u32> = None;
    let mut i: usize = 0;
    while i < paths.len()
        invariant
            i <= paths@.len(),
            match best {
                Some(b) => max_sequence(paths@.subrange(0, i as int)) == Some(b as nat),
                None => max_sequence(paths@.subrange(0, i as int)) is None,
            },
        decreases paths@.len() - i,
    {
        proof {
            assert(paths@.subrange(0, i + 1).drop_last() =~= paths@.subrange(0, i as int));
        }
        match get_wal_sequence(paths[i].as_str()) {
            Some(n) => {
                best = match best {
                    Some(b) => Some(if b >= n { b } else { n }),
                    None => Some(n),
                };
            },
            None => {},
        }
        i += 1;
    }
    proof {
        assert(paths@.subrange(0, i as int) =~= paths@);
        lemma_max_sequence_bounds(paths@);
    }
    match best {
        Some(b) => b + 1,
        None => 0,
    }
}

pub open spec fn digit_char(d: nat) -> char {
    seq!['0', '1', '2', '3', '4', '5', '6', '7', '8', '9'][d as int]
}

/// The decimal digits of `n`, most significant first, no leading zeros.
pub open spec fn decimal_chars(n: nat) -> Seq<char>
    decreases n,
{
    if n < 10 {
        seq![digit_char(n)]
    } else {
        decimal_chars(n / 10).push(digit_char(n % 10))
    }
}

/// `n` in decimal, padded with zeros on the left to at least four digits.
pub open spec fn padded_number(n: nat) -> Seq<char> {
    let d = decimal_chars(n);
    if d.len() < 4 {
        Seq::new((4 - d.len()) as nat, |i: int| '0') + d
    } else {
        d
    }
}

/// The file name of the segment with sequence number `n`.
pub open spec fn segment_file_name_of(n: nat) -> Seq<char> {
    seq!['w', 'a', 'l', '-'] + padded_number(n) + seq!['.', 'b', 'i', 'n']
}

fn digit_str(d: u64) -> (r: &'static str)
    requires
        d < 10,
    ensures
        r@ == seq![digit_char(d as nat)],
{
    proof {
        reveal_strlit("0");
        reveal_strlit("1");
        reveal_strlit("2");
        reveal_strlit("3");
        reveal_strlit("4");
        reveal_strlit("5");
        reveal_strlit("6");
        reveal_strlit("7");
        reveal_strlit("8");
        reveal_strlit("9");
    }
    match d {
        0 => "0",
        1 => "1",
        2 => "2",
        3 => "3",
        4 => "4",
        5 => "5",
        6 => "6",
        7 => "7",
        8 => "8",
        _ => "9",
    }
}

fn push_decimal_chars(out: &mut String, n: u64)
    ensures
        final(out)@ == old(out)@ + decimal_chars(n as nat),
    decreases n,
{
    if n >= 10 {
        push_decimal_chars(out, n / 10);
    }
    out.append(digit_str(n % 10));
    assert(final(out)@ =~= old(out)@ + decimal_chars(n as nat));
}

/// The file name of the segment with sequence number `n`: `wal-` and `n`
/// zero-padded to four digits, then `.bin`.
pub fn segment_file_name(n: u32) -> (r: String)
    ensures
        r@ == segment_file_name_of(n as nat),
{
    let mut digits = String::new();
    push_decimal_chars(&mut digits, n as u64);
    let len = digits.as_str().unicode_len();
    let mut out = String::from_str("wal-");
    proof {
        reveal_strlit("wal-");
        reveal_strlit("0");
        reveal_strlit(".bin");
    }
    let mut k: usize = len;
    while k < 4
        invariant
            len == decimal_chars(n as nat).len(),
            len <= k <= 4 || (len > 4 && k == len),
            out@ == seq!['w', 'a', 'l', '-'] + Seq::new((k - len) as nat, |i: int| '0'),
        decreases 4 - k,
    {
        let ghost before = out@;
        out.append("0");
        proof {
            reveal_strlit("0");
        }
        assert(out@ =~= before.push('0'));
        assert(Seq::new((k + 1 - len) as nat, |i: int| '0') =~= Seq::new((k - len) as nat, |i: int| '0').push('0'));
        k += 1;
        assert(out@ =~= seq!['w', 'a', 'l', '-'] + Seq::new((k - len) as nat, |i: int| '0'));
    }
    out.append(digits.as_str());
    out.append(".bin");
    proof {
        if len < 4 {
            assert(out@ =~= segment_file_name_of(n as nat));
        } else {
            assert(Seq::new((k - len) as nat, |i: int| '0') =~= Seq::<char>::empty());
            assert(out@ =~= segment_file_name_of(n as nat));
        }
    }
    out
}

/// The path of segment `n` in directory `dir`; an empty directory means the current one.
pub open spec fn segment_path_of(dir: Seq<char>, n: nat) -> Seq<char> {
    if dir.len() == 0 {
        seq!['.', '/'] + segment_file_name_of(n)
    } else {
        dir + seq!['/'] + segment_file_name_of(n)
    }
}

/// Where a log that is writing to `path` continues after rotation: the
/// segment that follows `path`'s own number, beside it in the same directory.
pub open spec fn rotated_path(path: Seq<char>) -> Seq<char> {
    segment_path_of(
        match parent_of(path) {
            Some(d) => d,
            None => Seq::empty(),
        },
        next_number(path),
    )
}

/// The path of segment `n` in directory `dir`.
pub fn segment_path_in(dir: &str, n: u32) -> (r: String)
    ensures
        r@ == segment_path_of(dir@, n as nat),
{
    let name = segment_file_name(n);
    let mut out = if dir.unicode_len() == 0 {
        proof {
            reveal_strlit("./");
        }
        String::from_str("./")
    } else {
        let mut d = String::from_str(dir);
        proof {
            reveal_strlit("/");
        }
        d.append("/");
        d
    };
    out.append(name.as_str());
    assert(out@ =~= segment_path_of(dir@, n as nat));
    out
}

/// The path that a log writing to `path` rotates to.
pub fn rotated_segment_path(path: &str) -> (r: String)
    ensures
        r@ == rotated_path(path@),
{
    let n = get_next_number_of_wal(path);
    match parent(path) {
        Some(d) => segment_path_in(d.as_str(), n),
        None => {
            proof {
                reveal_strlit("");
            }
            assert(""@ =~= Seq::<char>::empty());
            segment_path_in("", n)
        },
    }
}

} // verus!
