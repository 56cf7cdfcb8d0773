//! The address validator: decides whether a single `host:port` entry, or a
//! whole optional group of them, is well formed.
//!
//! An entry holding an alphabetic character anywhere is read as
//! `hostname:port` (a deliberate heuristic, not a full hostname grammar): it
//! must have exactly one colon followed by a digits-only port in 1..=65535.
//! Any other entry must be a socket literal with a nonzero port, either
//! IPv4 `a.b.c.d:port` or bracketed IPv6 `[address]:port`; since hex
//! letters send an entry to the hostname rule, only IPv6 literals written
//! in digits and punctuation (such as `[::1]:8080`) can take that form.

use vstd::prelude::*;
use vstd::string::StrSliceExecFns;

verus! {

// ------------------------------------------------------------------
// Character classes
// ------------------------------------------------------------------

pub open spec fn is_ascii_digit_char(c: char) -> bool {
    48 <= c as u32 && c as u32 <= 57
}

pub open spec fn digit_val(c: char) -> int {
    c as u32 - 48
}

/// What `char::is_alphabetic` returns on a character outside the ASCII range.
pub uninterp spec fn unicode_alphabetic(c: char) -> bool;

/// Relies on `char::is_alphabetic`: within ASCII exactly the letters
/// `A`..=`Z` and `a`..=`z` have the Unicode `Alphabetic` property, and on any
/// character the result depends on that character alone.
pub assume_specification[ char::is_alphabetic ](c: char) -> (r: bool)
    ensures
        r == (if (c as u32) < 128 {
            (65 <= c as u32 && c as u32 <= 90) || (97 <= c as u32 && c as u32 <= 122)
        } else {
            unicode_alphabetic(c)
        }),
;

pub open spec fn is_alpha_char(c: char) -> bool {
    if (c as u32) < 128 {
        (65 <= c as u32 && c as u32 <= 90) || (97 <= c as u32 && c as u32 <= 122)
    } else {
        unicode_alphabetic(c)
    }
}

pub open spec fn has_alpha(s: Seq<char>) -> bool {
    exists|i: int| 0 <= i < s.len() && is_alpha_char(s[i])
}

pub open spec fn all_ascii_digits(s: Seq<char>) -> bool {
    forall|i: int| 0 <= i < s.len() ==> is_ascii_digit_char(s[i])
}

// ------------------------------------------------------------------
// Digit runs and their numeric value
// ------------------------------------------------------------------

/// The number written by a digit sequence, most significant digit first.
pub open spec fn digits_value(s: Seq<char>) -> int
    decreases s.len(),
{
    if s.len() == 0 {
        0
    } else {
        digits_value(s.drop_last()) * 10 + digit_val(s.last())
    }
}

/// First position at or after `i` holding a non-digit, or the length.
pub open spec fn digit_run_end(s: Seq<char>, i: int) -> int
    decreases s.len() - i,
{
    if 0 <= i && i < s.len() && is_ascii_digit_char(s[i]) {
        digit_run_end(s, i + 1)
    } else {
        i
    }
}

/// First position at or after `i` holding a colon, or the length.
pub open spec fn non_colon_run_end(s: Seq<char>, i: int) -> int
    decreases s.len() - i,
{
    if 0 <= i && i < s.len() && s[i] != ':' {
        non_colon_run_end(s, i + 1)
    } else {
        i
    }
}

// ------------------------------------------------------------------
// The entry grammar
// ------------------------------------------------------------------

/// A valid port written in digits: nonempty, digits only, value 1..=65535.
/// Leading zeros are allowed, as the standard port parser allows them.
pub open spec fn valid_port_digits(s: Seq<char>) -> bool {
    s.len() > 0 && all_ascii_digits(s) && 1 <= digits_value(s) <= 65535
}

/// An entry read as `hostname:port`: at least one colon, and everything
/// after the first colon is a valid port in digits (which in particular
/// rules out a second colon).
pub open spec fn valid_hostname_entry(s: Seq<char>) -> bool {
    let k = non_colon_run_end(s, 0);
    k < s.len() && valid_port_digits(s.subrange(k + 1, s.len() as int))
}

/// A decimal IPv4 octet: one to three digits, no leading zero on a
/// multi-digit octet, value at most 255.
pub open spec fn valid_octet(s: Seq<char>, start: int, end: int) -> bool {
    &&& 1 <= end - start <= 3
    &&& digits_value(s.subrange(start, end)) <= 255
    &&& (end - start > 1 ==> s[start] != '0')
}

/// An IPv4 socket literal with a nonzero port: four dot-separated decimal
/// octets, then a colon and a valid port in digits. Octets refuse leading
/// zeros while the port allows them, as the standard socket-address parser
/// does for this form.
pub open spec fn valid_ipv4_socket(s: Seq<char>) -> bool {
    let e1 = digit_run_end(s, 0);
    let e2 = digit_run_end(s, e1 + 1);
    let e3 = digit_run_end(s, e2 + 1);
    let e4 = digit_run_end(s, e3 + 1);
    &&& e1 < s.len() && s[e1] == '.' && valid_octet(s, 0, e1)
    &&& e2 < s.len() && s[e2] == '.' && valid_octet(s, e1 + 1, e2)
    &&& e3 < s.len() && s[e3] == '.' && valid_octet(s, e2 + 1, e3)
    &&& e4 < s.len() && s[e4] == ':' && valid_octet(s, e3 + 1, e4)
    &&& valid_port_digits(s.subrange(e4 + 1, s.len() as int))
}

// ------------------------------------------------------------------
// Bracketed IPv6 socket literals
//
// A letterless entry can also be `[address]:port` with an IPv6 address.
// Since hexadecimal letters route an entry to the hostname rule, only
// literals written in digits and punctuation reach this grammar, so a
// group here is simply one to four digits. The shape follows the
// standard socket-address parser: up to eight colon-separated groups,
// at most one `::` compression, an optional trailing embedded IPv4
// quad counting as two groups, and an optional numeric `%` scope id.
// ------------------------------------------------------------------

/// First position in `[i, end)` holding `stop`, or `end` if none.
pub open spec fn find_from(s: Seq<char>, i: int, end: int, stop: char) -> int
    decreases end - i,
{
    if 0 <= i && i < end && end <= s.len() && s[i] != stop {
        find_from(s, i + 1, end, stop)
    } else {
        i
    }
}

/// First position `h` in `[i, end)` where `::` starts, or `end` if none.
pub open spec fn find_double_colon(s: Seq<char>, i: int, end: int) -> int
    decreases end - i,
{
    if 0 <= i && i + 1 < end && end <= s.len() {
        if s[i] == ':' && s[i + 1] == ':' {
            i
        } else {
            find_double_colon(s, i + 1, end)
        }
    } else {
        end
    }
}

/// An IPv6 group as a letterless entry can write one: one to four digits.
pub open spec fn group_ok_at(s: Seq<char>, start: int, end: int) -> bool {
    1 <= end - start <= 4 && (forall|j: int| start <= j < end ==> is_ascii_digit_char(s[j]))
}

/// A dotted IPv4 quad filling exactly `[start, end)`: four octets under the
/// same rules as a socket literal's address part.
pub open spec fn valid_ipv4_quad_at(s: Seq<char>, start: int, end: int) -> bool {
    let e1 = digit_run_end(s, start);
    let e2 = digit_run_end(s, e1 + 1);
    let e3 = digit_run_end(s, e2 + 1);
    let e4 = digit_run_end(s, e3 + 1);
    &&& e1 < end && s[e1] == '.' && valid_octet(s, start, e1)
    &&& e2 < end && s[e2] == '.' && valid_octet(s, e1 + 1, e2)
    &&& e3 < end && s[e3] == '.' && valid_octet(s, e2 + 1, e3)
    &&& e4 == end && valid_octet(s, e3 + 1, e4)
}

/// Number of colon-separated groups exactly filling `[i, end)`, every chunk
/// a group; -1 when the text is not such a list.
pub open spec fn head_groups_at(s: Seq<char>, i: int, end: int) -> int
    decreases end - i,
{
    let k = find_from(s, i, end, ':');
    if 0 <= i && i <= k && k < end && end <= s.len() {
        if group_ok_at(s, i, k) {
            let rest = head_groups_at(s, k + 1, end);
            if rest == -1 {
                -1
            } else {
                1 + rest
            }
        } else {
            -1
        }
    } else {
        if group_ok_at(s, i, end) {
            1
        } else {
            -1
        }
    }
}

/// Like [`head_groups_at`], but the final chunk may instead be an embedded
/// IPv4 quad, which stands for two groups; -1 when malformed.
pub open spec fn tail_groups_at(s: Seq<char>, i: int, end: int) -> int
    decreases end - i,
{
    let k = find_from(s, i, end, ':');
    if 0 <= i && i <= k && k < end && end <= s.len() {
        if group_ok_at(s, i, k) {
            let rest = tail_groups_at(s, k + 1, end);
            if rest == -1 {
                -1
            } else {
                1 + rest
            }
        } else {
            -1
        }
    } else {
        if group_ok_at(s, i, end) {
            1
        } else if valid_ipv4_quad_at(s, i, end) {
            2
        } else {
            -1
        }
    }
}

/// An IPv6 address body in `[i, end)`: either eight groups' worth with no
/// `::` (an embedded quad may close the list), or a head and tail of groups
/// around one `::` that together leave room for the zeros it stands for.
pub open spec fn valid_ipv6_body_at(s: Seq<char>, i: int, end: int) -> bool {
    let h = find_double_colon(s, i, end);
    if h < end {
        let p = if h == i {
            0int
        } else {
            head_groups_at(s, i, h)
        };
        let q = if h + 2 == end {
            0int
        } else {
            tail_groups_at(s, h + 2, end)
        };
        p >= 0 && q >= 0 && p + 1 + q <= 8
    } else {
        tail_groups_at(s, i, end) == 8
    }
}

/// A numeric scope id: nonempty digits whose value fits 32 bits, leading
/// zeros allowed.
pub open spec fn valid_scope_at(s: Seq<char>, start: int, end: int) -> bool {
    start < end && (forall|j: int| start <= j < end ==> is_ascii_digit_char(s[j]))
        && digits_value(s.subrange(start, end)) <= 4294967295
}

/// A bracketed IPv6 socket literal with a nonzero port: `[` address `]`
/// `:` port, the address optionally followed by `%` and a scope id.
pub open spec fn valid_ipv6_socket(s: Seq<char>) -> bool {
    let rb = find_from(s, 0, s.len() as int, ']');
    &&& s.len() > 0 && s[0] == '['
    &&& rb < s.len()
    &&& rb + 1 < s.len() && s[rb + 1] == ':'
    &&& valid_port_digits(s.subrange(rb + 2, s.len() as int))
    &&& ({
        let pct = find_from(s, 1, rb, '%');
        if pct < rb {
            valid_ipv6_body_at(s, 1, pct) && valid_scope_at(s, pct + 1, rb)
        } else {
            valid_ipv6_body_at(s, 1, rb)
        }
    })
}

/// Whether one address entry is acceptable: an entry holding a letter goes
/// by the hostname rule, any other entry must be an IPv4 or bracketed IPv6
/// socket literal.
pub open spec fn entry_valid(s: Seq<char>) -> bool {
    if has_alpha(s) {
        valid_hostname_entry(s)
    } else {
        valid_ipv4_socket(s) || valid_ipv6_socket(s)
    }
}

/// Whether a whole optional address group is acceptable: an absent group
/// passes vacuously; a present group must be nonempty with every entry valid.
pub open spec fn host_group_valid(g: Option<Vec<String>>) -> bool {
    match g {
        None => true,
        Some(v) => v@.len() > 0 && (forall|i: int| 0 <= i < v@.len() ==> entry_valid(v@[i]@)),
    }
}

// ------------------------------------------------------------------
// Lemmas about digit runs and digit values
// ------------------------------------------------------------------

proof fn lemma_non_colon_run_end_props(s: Seq<char>, i: int)
    requires
        0 <= i <= s.len(),
    ensures
        i <= non_colon_run_end(s, i) <= s.len(),
        forall|j: int| i <= j < non_colon_run_end(s, i) ==> s[j] != ':',
        non_colon_run_end(s, i) < s.len() ==> s[non_colon_run_end(s, i)] == ':',
    decreases s.len() - i,
{
    if i < s.len() && s[i] != ':' {
        lemma_non_colon_run_end_props(s, i + 1);
    }
}

proof fn lemma_digits_value_step(s: Seq<char>, start: int, i: int)
    requires
        0 <= start <= i < s.len(),
    ensures
        digits_value(s.subrange(start, i + 1)) == digits_value(s.subrange(start, i)) * 10
            + digit_val(s[i]),
{
    let a = s.subrange(start, i + 1);
    assert(a.drop_last() =~= s.subrange(start, i));
    assert(a.last() == s[i]);
}

proof fn lemma_digits_value_nonneg(s: Seq<char>)
    requires
        all_ascii_digits(s),
    ensures
        digits_value(s) >= 0,
    decreases s.len(),
{
    if s.len() > 0 {
        assert(all_ascii_digits(s.drop_last()));
        lemma_digits_value_nonneg(s.drop_last());
    }
}

/// Extending a digit run to the right never shrinks its value.
proof fn lemma_digits_value_prefix_le(s: Seq<char>, start: int, i: int, j: int)
    requires
        0 <= start <= i <= j <= s.len(),
        forall|m: int| start <= m < j ==> is_ascii_digit_char(s[m]),
    ensures
        digits_value(s.subrange(start, j)) >= digits_value(s.subrange(start, i)),
    decreases j - i,
{
    if j > i {
        lemma_digits_value_prefix_le(s, start, i, j - 1);
        lemma_digits_value_step(s, start, j - 1);
        assert(all_ascii_digits(s.subrange(start, j - 1)));
        lemma_digits_value_nonneg(s.subrange(start, j - 1));
    }
}

// ------------------------------------------------------------------
// Executable scanning
// ------------------------------------------------------------------

/// Whether the entry holds any alphabetic character.
fn scan_alpha(s: &str) -> (r: bool)
    ensures
        r == has_alpha(s@),
{
    let n = s.unicode_len();
    let mut i: usize = 0;
    while i < n
        invariant
            n == s@.len(),
            i <= n,
            forall|j: int| 0 <= j < i ==> !is_alpha_char(s@[j]),
        decreases n - i,
    {
        let c = s.get_char(i);
        if c.is_alphabetic() {
            assert(is_alpha_char(s@[i as int]));
            return true;
        }
        i += 1;
    }
    false
}

/// The first colon position, or the length if the entry has no colon.
fn find_colon(s: &str) -> (k: usize)
    ensures
        k as int == non_colon_run_end(s@, 0),
        k <= s@.len(),
{
    let n = s.unicode_len();
    let mut i: usize = 0;
    while i < n
        invariant
            n == s@.len(),
            i <= n,
            non_colon_run_end(s@, 0) == non_colon_run_end(s@, i as int),
        decreases n - i,
    {
        let c = s.get_char(i);
        if c == ':' {
            assert(non_colon_run_end(s@, i as int) == i as int);
            return i;
        }
        assert(non_colon_run_end(s@, i as int) == non_colon_run_end(s@, i + 1));
        i += 1;
    }
    assert(non_colon_run_end(s@, i as int) == i as int);
    i
}

/// The end of the digit run starting at `start`.
fn scan_digits(s: &str, start: usize) -> (end: usize)
    requires
        start <= s@.len(),
    ensures
        end as int == digit_run_end(s@, start as int),
        start <= end <= s@.len(),
        forall|j: int| start <= j < end ==> is_ascii_digit_char(s@[j]),
{
    let n = s.unicode_len();
    let mut i: usize = start;
    while i < n
        invariant
            n == s@.len(),
            start <= i <= n,
            digit_run_end(s@, start as int) == digit_run_end(s@, i as int),
            forall|j: int| start <= j < i ==> is_ascii_digit_char(s@[j]),
        decreases n - i,
    {
        let c = s.get_char(i);
        let u = c as u32;
        if u < 48 || u > 57 {
            assert(digit_run_end(s@, i as int) == i as int);
            return i;
        }
        assert(digit_run_end(s@, i as int) == digit_run_end(s@, i + 1));
        i += 1;
    }
    assert(digit_run_end(s@, i as int) == i as int);
    i
}

/// Whether everything from `start` to the end of the entry is a valid port
/// in digits.
fn check_port_digits(s: &str, start: usize) -> (r: bool)
    requires
        start <= s@.len(),
    ensures
        r == valid_port_digits(s@.subrange(start as int, s@.len() as int)),
{
    let ghost port = s@.subrange(start as int, s@.len() as int);
    let n = s.unicode_len();
    if start >= n {
        return false;
    }
    let mut i: usize = start;
    let mut val: u32 = 0;
    while i < n
        invariant
            n == s@.len(),
            start <= i <= n,
            start < n,
            port == s@.subrange(start as int, s@.len() as int),
            forall|j: int| start <= j < i ==> is_ascii_digit_char(s@[j]),
            val == digits_value(s@.subrange(start as int, i as int)),
            val <= 655359,
        decreases n - i,
    {
        let c = s.get_char(i);
        let u = c as u32;
        if u < 48 || u > 57 {
            assert(!all_ascii_digits(port)) by {
                assert(port[i - start] == s@[i as int]);
            }
            return false;
        }
        if val > 65535 {
            proof {
                if all_ascii_digits(port) {
                    assert forall|m: int| start <= m < n implies is_ascii_digit_char(s@[m]) by {
                        assert(port[m - start] == s@[m]);
                    }
                    lemma_digits_value_prefix_le(s@, start as int, i as int, n as int);
                    assert(digits_value(port) > 65535);
                }
            }
            return false;
        }
        proof {
            lemma_digits_value_step(s@, start as int, i as int);
        }
        val = val * 10 + (u - 48);
        i += 1;
    }
    proof {
        assert(port =~= s@.subrange(start as int, i as int));
        assert forall|j: int| 0 <= j < port.len() implies is_ascii_digit_char(port[j]) by {
            assert(port[j] == s@[start + j]);
        }
    }
    1 <= val && val <= 65535
}

/// Whether the digit run from `start` to `end` is a valid IPv4 octet.
fn check_octet(s: &str, start: usize, end: usize) -> (r: bool)
    requires
        start <= end <= s@.len(),
        forall|j: int| start <= j < end ==> is_ascii_digit_char(s@[j]),
    ensures
        r == valid_octet(s@, start as int, end as int),
{
    let len = end - start;
    if len < 1 || len > 3 {
        return false;
    }
    if len > 1 {
        let c0 = s.get_char(start);
        if c0 == '0' {
            return false;
        }
    }
    let mut i: usize = start;
    let mut val: u32 = 0;
    while i < end
        invariant
            start <= i <= end <= s@.len(),
            forall|j: int| start <= j < end ==> is_ascii_digit_char(s@[j]),
            val == digits_value(s@.subrange(start as int, i as int)),
            val <= 2559,
        decreases end - i,
    {
        if val > 255 {
            proof {
                lemma_digits_value_prefix_le(s@, start as int, i as int, end as int);
            }
            return false;
        }
        let c = s.get_char(i);
        let u = c as u32;
        proof {
            lemma_digits_value_step(s@, start as int, i as int);
        }
        val = val * 10 + (u - 48);
        i += 1;
    }
    val <= 255
}

/// Whether the whole entry is a `hostname:port` with a valid port.
fn check_hostname_entry(s: &str) -> (r: bool)
    ensures
        r == valid_hostname_entry(s@),
{
    let n = s.unicode_len();
    let k = find_colon(s);
    if k == n {
        return false;
    }
    check_port_digits(s, k + 1)
}

/// Whether the whole entry is an IPv4 socket literal with a nonzero port.
fn check_ipv4_socket(s: &str) -> (r: bool)
    ensures
        r == valid_ipv4_socket(s@),
{
    let n = s.unicode_len();
    let e1 = scan_digits(s, 0);
    if e1 == n {
        return false;
    }
    if s.get_char(e1) != '.' {
        return false;
    }
    if !check_octet(s, 0, e1) {
        return false;
    }
    let e2 = scan_digits(s, e1 + 1);
    if e2 == n {
        return false;
    }
    if s.get_char(e2) != '.' {
        return false;
    }
    if !check_octet(s, e1 + 1, e2) {
        return false;
    }
    let e3 = scan_digits(s, e2 + 1);
    if e3 == n {
        return false;
    }
    if s.get_char(e3) != '.' {
        return false;
    }
    if !check_octet(s, e2 + 1, e3) {
        return false;
    }
    let e4 = scan_digits(s, e3 + 1);
    if e4 == n {
        return false;
    }
    if s.get_char(e4) != ':' {
        return false;
    }
    if !check_octet(s, e3 + 1, e4) {
        return false;
    }
    check_port_digits(s, e4 + 1)
}

/// The first position of `stop` in `[start, end)`, or `end` if none.
fn scan_for(s: &str, start: usize, end: usize, stop: char) -> (k: usize)
    requires
        start <= end <= s@.len(),
    ensures
        k as int == find_from(s@, start as int, end as int, stop),
        start <= k <= end,
        forall|j: int| start <= j < k ==> s@[j] != stop,
        k < end ==> s@[k as int] == stop,
{
    let mut i: usize = start;
    while i < end
        invariant
            start <= i <= end <= s@.len(),
            find_from(s@, start as int, end as int, stop) == find_from(
                s@,
                i as int,
                end as int,
                stop,
            ),
            forall|j: int| start <= j < i ==> s@[j] != stop,
        decreases end - i,
    {
        let c = s.get_char(i);
        if c == stop {
            assert(find_from(s@, i as int, end as int, stop) == i as int);
            return i;
        }
        assert(find_from(s@, i as int, end as int, stop) == find_from(
            s@,
            i + 1,
            end as int,
            stop,
        ));
        i += 1;
    }
    assert(find_from(s@, i as int, end as int, stop) == i as int);
    i
}

/// The first position in `[start, end)` where `::` starts, or `end`.
fn scan_double_colon(s: &str, start: usize, end: usize) -> (h: usize)
    requires
        start <= end <= s@.len(),
    ensures
        h as int == find_double_colon(s@, start as int, end as int),
        start <= h <= end,
        h < end ==> h + 1 < end && s@[h as int] == ':' && s@[h + 1] == ':',
{
    let mut i: usize = start;
    while end - i > 1
        invariant
            start <= i,
            i <= end <= s@.len(),
            find_double_colon(s@, start as int, end as int) == find_double_colon(
                s@,
                i as int,
                end as int,
            ),
        decreases end - i,
    {
        let c1 = s.get_char(i);
        if c1 == ':' {
            let c2 = s.get_char(i + 1);
            if c2 == ':' {
                assert(find_double_colon(s@, i as int, end as int) == i as int);
                return i;
            }
        }
        assert(find_double_colon(s@, i as int, end as int) == find_double_colon(
            s@,
            i + 1,
            end as int,
        ));
        i += 1;
    }
    assert(find_double_colon(s@, i as int, end as int) == end as int);
    end
}

/// Whether `[start, end)` is a one-to-four digit group.
fn check_group(s: &str, start: usize, end: usize) -> (r: bool)
    requires
        start <= end <= s@.len(),
    ensures
        r == group_ok_at(s@, start as int, end as int),
{
    if end - start < 1 || end - start > 4 {
        return false;
    }
    let mut i: usize = start;
    while i < end
        invariant
            start <= i <= end <= s@.len(),
            forall|j: int| start <= j < i ==> is_ascii_digit_char(s@[j]),
        decreases end - i,
    {
        let c = s.get_char(i);
        let u = c as u32;
        if u < 48 || u > 57 {
            assert(!is_ascii_digit_char(s@[i as int]));
            return false;
        }
        i += 1;
    }
    true
}

/// Whether `[start, end)` is a dotted IPv4 quad.
fn check_quad(s: &str, start: usize, end: usize) -> (r: bool)
    requires
        start <= end <= s@.len(),
    ensures
        r == valid_ipv4_quad_at(s@, start as int, end as int),
{
    let e1 = scan_digits(s, start);
    if e1 >= end {
        return false;
    }
    if s.get_char(e1) != '.' {
        return false;
    }
    if !check_octet(s, start, e1) {
        return false;
    }
    let e2 = scan_digits(s, e1 + 1);
    if e2 >= end {
        return false;
    }
    if s.get_char(e2) != '.' {
        return false;
    }
    if !check_octet(s, e1 + 1, e2) {
        return false;
    }
    let e3 = scan_digits(s, e2 + 1);
    if e3 >= end {
        return false;
    }
    if s.get_char(e3) != '.' {
        return false;
    }
    if !check_octet(s, e2 + 1, e3) {
        return false;
    }
    let e4 = scan_digits(s, e3 + 1);
    if e4 != end {
        return false;
    }
    check_octet(s, e3 + 1, e4)
}

proof fn lemma_head_groups_at_lower(s: Seq<char>, i: int, end: int)
    ensures
        head_groups_at(s, i, end) == -1 || head_groups_at(s, i, end) >= 1,
    decreases end - i,
{
    let k = find_from(s, i, end, ':');
    if 0 <= i && i <= k && k < end && end <= s.len() {
        lemma_head_groups_at_lower(s, k + 1, end);
    }
}

proof fn lemma_tail_groups_at_lower(s: Seq<char>, i: int, end: int)
    ensures
        tail_groups_at(s, i, end) == -1 || tail_groups_at(s, i, end) >= 1,
    decreases end - i,
{
    let k = find_from(s, i, end, ':');
    if 0 <= i && i <= k && k < end && end <= s.len() {
        lemma_tail_groups_at_lower(s, k + 1, end);
    }
}

/// Count the groups of `[start, end)` as [`head_groups_at`] does, capped at
/// 9 since callers only compare against 8.
fn check_head_groups(s: &str, start: usize, end: usize) -> (r: i8)
    requires
        start <= end <= s@.len(),
    ensures
        r as int == (if head_groups_at(s@, start as int, end as int) > 8 {
            9int
        } else {
            head_groups_at(s@, start as int, end as int)
        }),
{
    let mut pos: usize = start;
    let mut cnt: i8 = 0;
    let ghost mut true_cnt: int = 0;
    loop
        invariant
            start <= pos <= end <= s@.len(),
            0 <= true_cnt,
            cnt as int == (if true_cnt > 8 {
                9int
            } else {
                true_cnt
            }),
            head_groups_at(s@, start as int, end as int) == (if head_groups_at(
                s@,
                pos as int,
                end as int,
            ) == -1 {
                -1int
            } else {
                true_cnt + head_groups_at(s@, pos as int, end as int)
            }),
        decreases end - pos,
    {
        let k = scan_for(s, pos, end, ':');
        if k == end {
            if check_group(s, pos, end) {
                assert(head_groups_at(s@, pos as int, end as int) == 1);
                if cnt >= 8 {
                    return 9;
                }
                return cnt + 1;
            }
            assert(head_groups_at(s@, pos as int, end as int) == -1);
            return -1;
        }
        if !check_group(s, pos, k) {
            assert(head_groups_at(s@, pos as int, end as int) == -1);
            return -1;
        }
        proof {
            assert(head_groups_at(s@, pos as int, end as int) == (if head_groups_at(
                s@,
                k + 1,
                end as int,
            ) == -1 {
                -1int
            } else {
                1 + head_groups_at(s@, k + 1, end as int)
            }));
            lemma_head_groups_at_lower(s@, k + 1, end as int);
            true_cnt = true_cnt + 1;
        }
        cnt = if cnt >= 8 {
            9
        } else {
            cnt + 1
        };
        pos = k + 1;
    }
}

/// Count the groups of `[start, end)` as [`tail_groups_at`] does, capped at
/// 9 since callers only compare against 8.
fn check_tail_groups(s: &str, start: usize, end: usize) -> (r: i8)
    requires
        start <= end <= s@.len(),
    ensures
        r as int == (if tail_groups_at(s@, start as int, end as int) > 8 {
            9int
        } else {
            tail_groups_at(s@, start as int, end as int)
        }),
{
    let mut pos: usize = start;
    let mut cnt: i8 = 0;
    let ghost mut true_cnt: int = 0;
    loop
        invariant
            start <= pos <= end <= s@.len(),
            0 <= true_cnt,
            cnt as int == (if true_cnt > 8 {
                9int
            } else {
                true_cnt
            }),
            tail_groups_at(s@, start as int, end as int) == (if tail_groups_at(
                s@,
                pos as int,
                end as int,
            ) == -1 {
                -1int
            } else {
                true_cnt + tail_groups_at(s@, pos as int, end as int)
            }),
        decreases end - pos,
    {
        let k = scan_for(s, pos, end, ':');
        if k == end {
            if check_group(s, pos, end) {
                assert(tail_groups_at(s@, pos as int, end as int) == 1);
                if cnt >= 8 {
                    return 9;
                }
                return cnt + 1;
            }
            if check_quad(s, pos, end) {
                assert(tail_groups_at(s@, pos as int, end as int) == 2);
                if cnt >= 7 {
                    return 9;
                }
                return cnt + 2;
            }
            assert(tail_groups_at(s@, pos as int, end as int) == -1);
            return -1;
        }
        if !check_group(s, pos, k) {
            assert(tail_groups_at(s@, pos as int, end as int) == -1);
            return -1;
        }
        proof {
            assert(tail_groups_at(s@, pos as int, end as int) == (if tail_groups_at(
                s@,
                k + 1,
                end as int,
            ) == -1 {
                -1int
            } else {
                1 + tail_groups_at(s@, k + 1, end as int)
            }));
            lemma_tail_groups_at_lower(s@, k + 1, end as int);
            true_cnt = true_cnt + 1;
        }
        cnt = if cnt >= 8 {
            9
        } else {
            cnt + 1
        };
        pos = k + 1;
    }
}

/// Whether `[start, end)` is an IPv6 address body.
fn check_ipv6_body(s: &str, start: usize, end: usize) -> (r: bool)
    requires
        start <= end <= s@.len(),
    ensures
        r == valid_ipv6_body_at(s@, start as int, end as int),
{
    let h = scan_double_colon(s, start, end);
    if h < end {
        let p: i8 = if h == start {
            0
        } else {
            check_head_groups(s, start, h)
        };
        let q: i8 = if h + 2 == end {
            0
        } else {
            check_tail_groups(s, h + 2, end)
        };
        p >= 0 && q >= 0 && (p as i32) + 1 + (q as i32) <= 8
    } else {
        check_tail_groups(s, start, end) == 8
    }
}

/// Whether `[start, end)` is a numeric scope id fitting 32 bits.
fn check_scope(s: &str, start: usize, end: usize) -> (r: bool)
    requires
        start <= end <= s@.len(),
    ensures
        r == valid_scope_at(s@, start as int, end as int),
{
    if start >= end {
        return false;
    }
    let mut i: usize = start;
    let mut val: u64 = 0;
    while i < end
        invariant
            start <= i <= end <= s@.len(),
            start < end,
            forall|j: int| start <= j < i ==> is_ascii_digit_char(s@[j]),
            val == digits_value(s@.subrange(start as int, i as int)),
            val <= 42949672959,
        decreases end - i,
    {
        let c = s.get_char(i);
        let u = c as u32;
        if u < 48 || u > 57 {
            assert(!is_ascii_digit_char(s@[i as int]));
            return false;
        }
        if val > 4294967295 {
            proof {
                if forall|j: int| start <= j < end ==> is_ascii_digit_char(s@[j]) {
                    lemma_digits_value_prefix_le(s@, start as int, i as int, end as int);
                }
            }
            return false;
        }
        proof {
            lemma_digits_value_step(s@, start as int, i as int);
        }
        val = val * 10 + ((u - 48) as u64);
        i += 1;
    }
    val <= 4294967295
}

/// Whether the whole entry is a bracketed IPv6 socket literal with a
/// nonzero port.
fn check_ipv6_socket(s: &str) -> (r: bool)
    ensures
        r == valid_ipv6_socket(s@),
{
    let n = s.unicode_len();
    if n == 0 {
        return false;
    }
    if s.get_char(0) != '[' {
        return false;
    }
    let rb = scan_for(s, 0, n, ']');
    if rb == n {
        return false;
    }
    if rb + 1 >= n {
        return false;
    }
    if s.get_char(rb + 1) != ':' {
        return false;
    }
    if !check_port_digits(s, rb + 2) {
        return false;
    }
    assert(1 <= rb);
    let pct = scan_for(s, 1, rb, '%');
    if pct < rb {
        if !check_ipv6_body(s, 1, pct) {
            return false;
        }
        check_scope(s, pct + 1, rb)
    } else {
        check_ipv6_body(s, 1, rb)
    }
}

/// Decide one address entry, as [`entry_valid`] states.
pub fn check_address_entry(entry: &str) -> (r: bool)
    ensures
        r == entry_valid(entry@),
{
    if scan_alpha(entry) {
        check_hostname_entry(entry)
    } else {
        if check_ipv4_socket(entry) {
            true
        } else {
            check_ipv6_socket(entry)
        }
    }
}

/// Decide a whole optional address group: `None` passes vacuously, a present
/// group must be nonempty and every entry must be well formed with a nonzero
/// port. The label only names the option in the caller's diagnostics.
pub fn check_host_is_valid(sockets: &Option<Vec<String>>, _name: &str) -> (r: bool)
    ensures
        r == host_group_valid(*sockets),
{
    if let Some(socks) = sockets {
        if socks.len() == 0 {
            return false;
        }
        let mut i: usize = 0;
        while i < socks.len()
            invariant
                i <= socks@.len(),
                *sockets == Some(*socks),
                forall|j: int| 0 <= j < i ==> entry_valid(socks@[j]@),
            decreases socks@.len() - i,
        {
            if !check_address_entry(socks[i].as_str()) {
                return false;
            }
            i += 1;
        }
        true
    } else {
        true
    }
}

// ------------------------------------------------------------------
// Laws
// ------------------------------------------------------------------

/// Law: a configured address group passes the validator whenever every entry
/// is either an IPv4 or bracketed IPv6 socket literal with a nonzero port,
/// or holds a letter and has one colon followed by a digits-only port in
/// 1..=65535.
pub proof fn lemma_address_validator_accepts(sockets: Vec<String>)
    requires
        sockets@.len() > 0,
        forall|i: int|
            0 <= i < sockets@.len() ==> {
                let e = #[trigger] sockets@[i]@;
                (!has_alpha(e) && (valid_ipv4_socket(e) || valid_ipv6_socket(e))) || (has_alpha(e)
                    && {
                    let k = non_colon_run_end(e, 0);
                    k < e.len() && valid_port_digits(e.subrange(k + 1, e.len() as int))
                })
            },
    ensures
        host_group_valid(Some(sockets)),
{
    assert forall|i: int| 0 <= i < sockets@.len() implies entry_valid(sockets@[i]@) by {
        let e = sockets@[i]@;
        if has_alpha(e) {
            assert(valid_hostname_entry(e));
        }
    }
}

/// Law: one bad entry rejects the whole group. With a letter in the entry: a
/// missing colon, a second colon, an empty or non-digit port, port zero, or a
/// port above 65535 each fail; without a letter, anything that is neither an
/// IPv4 nor a bracketed IPv6 socket literal with a nonzero port fails.
pub proof fn lemma_address_validator_rejects(sockets: Vec<String>, i: int)
    requires
        0 <= i < sockets@.len(),
        ({
            let e = sockets@[i]@;
            if has_alpha(e) {
                let k = non_colon_run_end(e, 0);
                ||| k == e.len()
                ||| exists|j: int| k < j < e.len() && e[j] == ':'
                ||| k + 1 == e.len()
                ||| exists|j: int| k < j < e.len() && !is_ascii_digit_char(e[j])
                ||| digits_value(e.subrange(k + 1, e.len() as int)) == 0
                ||| digits_value(e.subrange(k + 1, e.len() as int)) > 65535
            } else {
                !valid_ipv4_socket(e) && !valid_ipv6_socket(e)
            }
        }),
    ensures
        !host_group_valid(Some(sockets)),
{
    let e = sockets@[i]@;
    if has_alpha(e) {
        let k = non_colon_run_end(e, 0);
        lemma_non_colon_run_end_props(e, 0);
        let port = e.subrange(k + 1, e.len() as int);
        if k == e.len() {
            assert(!valid_hostname_entry(e));
        } else if exists|j: int| k < j < e.len() && !is_ascii_digit_char(e[j]) {
            let j = choose|j: int| k < j < e.len() && !is_ascii_digit_char(e[j]);
            assert(port[j - (k + 1)] == e[j]);
            assert(!all_ascii_digits(port));
            assert(!valid_hostname_entry(e));
        } else if exists|j: int| k < j < e.len() && e[j] == ':' {
            let j = choose|j: int| k < j < e.len() && e[j] == ':';
            assert(port[j - (k + 1)] == e[j]);
            assert(!is_ascii_digit_char(e[j]));
            assert(!all_ascii_digits(port));
            assert(!valid_hostname_entry(e));
        } else {
            assert(!valid_hostname_entry(e));
        }
        assert(!entry_valid(e));
    }
    assert(!entry_valid(sockets@[i]@));
}

} // verus!
