use vstd::prelude::*;
use crate::combat::{Battle, all_wf};
use crate::group::{BLUDGEONING, COLD, FIRE, Group, RADIATION, SLASHING};

verus! {

/// The characters of `s`.
pub fn chars_of(s: &str) -> (r: Vec<char>)
    ensures
        r@ == s@,
{
    broadcast use vstd::string::axiom_spec_iter;
    let mut out: Vec<char> = Vec::new();
    for c in it: s.chars()
        invariant
            out@ == it.seq().take(it.index() as int),
    {
        out.push(c);
    }
    assert(out@ =~= s@);
    out
}

/// The pieces of `s` between characters of `seps`, empty pieces included:
/// one more piece than there are separators.
pub open spec fn split(s: Seq<char>, seps: Seq<char>) -> Seq<Seq<char>>
    decreases s.len(),
{
    if s.len() == 0 {
        seq![Seq::empty()]
    } else {
        let prev = split(s.drop_last(), seps);
        if seps.contains(s.last()) {
            prev.push(Seq::empty())
        } else {
            prev.update(prev.len() - 1, prev.last().push(s.last()))
        }
    }
}


/// The pieces longer than `min`, in order.
pub open spec fn longer_than(ps: Seq<Seq<char>>, min: int) -> Seq<Seq<char>>
    decreases ps.len(),
{
    if ps.len() == 0 {
        Seq::empty()
    } else {
        let prev = longer_than(ps.drop_last(), min);
        if ps.last().len() > min {
            prev.push(ps.last())
        } else {
            prev
        }
    }
}

pub open spec fn views(v: Seq<Vec<char>>) -> Seq<Seq<char>> {
    v.map_values(|p: Vec<char>| p@)
}

fn contains_char(seps: &Vec<char>, c: char) -> (r: bool)
    ensures
        r == seps@.contains(c),
{
    let mut k: usize = 0;
    while k < seps.len()
        invariant
            k <= seps.len(),
            forall|i: int| 0 <= i < k ==> seps@[i] != c,
        decreases seps.len() - k,
    {
        if seps[k] == c {
            assert(seps@[k as int] == c);
            return true;
        }
        k += 1;
    }
    false
}

/// Splits `s` at every character of `seps`.
pub fn split_pieces(s: &Vec<char>, seps: &Vec<char>) -> (r: Vec<Vec<char>>)
    ensures
        views(r@) == split(s@, seps@),
{
    let mut done: Vec<Vec<char>> = Vec::new();
    let mut cur: Vec<char> = Vec::new();
    let mut k: usize = 0;
    while k < s.len()
        invariant
            k <= s.len(),
            views(done@).push(cur@) == split(s@.take(k as int), seps@),
        decreases s.len() - k,
    {
        assert(s@.take(k + 1).drop_last() =~= s@.take(k as int));
        let c = s[k];
        let ghost before = views(done@).push(cur@);
        if contains_char(seps, c) {
            let piece = cur;
            done.push(piece);
            cur = Vec::new();
            assert(views(done@).push(cur@) =~= before.push(Seq::empty()));
        } else {
            cur.push(c);
            assert(views(done@).push(cur@) =~= before.update(before.len() - 1, before.last().push(c)));
        }
        k += 1;
    }
    assert(s@.take(s.len() as int) =~= s@);
    done.push(cur);
    assert(views(done@) =~= split(s@, seps@));
    done
}

/// The pieces of `ps` longer than `min`.
pub fn keep_longer(ps: Vec<Vec<char>>, min: usize) -> (r: Vec<Vec<char>>)
    ensures
        views(r@) == longer_than(views(ps@), min as int),
{
    let mut out: Vec<Vec<char>> = Vec::new();
    let mut k: usize = 0;
    while k < ps.len()
        invariant
            k <= ps.len(),
            views(out@) == longer_than(views(ps@).take(k as int), min as int),
        decreases ps.len() - k,
    {
        assert(views(ps@).take(k + 1).drop_last() =~= views(ps@).take(k as int));
        assert(views(ps@).take(k + 1).last() == ps@[k as int]@);
        if ps[k].len() > min {
            let p = ps[k].clone();
            assert(p@ == ps@[k as int]@);
            let ghost before = views(out@);
            out.push(p);
            assert(views(out@) =~= before.push(ps@[k as int]@));
        }
        k += 1;
    }
    assert(views(ps@).take(ps.len() as int) =~= views(ps@));
    out
}

pub open spec fn is_digit(c: char) -> bool {
    '0' <= c <= '9'
}

pub open spec fn digit_value(c: char) -> int {
    (c as int) - ('0' as int)
}

/// The value of a string of decimal digits.
pub open spec fn decimal(s: Seq<char>) -> int
    decreases s.len(),
{
    if s.len() == 0 {
        0
    } else {
        10 * decimal(s.drop_last()) + digit_value(s.last())
    }
}

/// `s` is a nonempty run of digits whose value fits in a `u32`.
pub open spec fn number(s: Seq<char>) -> Option<u32> {
    if s.len() > 0 && (forall|i: int| 0 <= i < s.len() ==> is_digit(#[trigger] s[i])) && decimal(s)
        <= u32::MAX {
        Some(decimal(s) as u32)
    } else {
        None
    }
}

proof fn lemma_decimal_nonneg(s: Seq<char>)
    requires
        forall|i: int| 0 <= i < s.len() ==> is_digit(#[trigger] s[i]),
    ensures
        decimal(s) >= 0,
    decreases s.len(),
{
    if s.len() > 0 {
        lemma_decimal_nonneg(s.drop_last());
    }
}

proof fn lemma_decimal_grows(s: Seq<char>, k: int)
    requires
        0 <= k <= s.len(),
        forall|i: int| 0 <= i < s.len() ==> is_digit(#[trigger] s[i]),
    ensures
        decimal(s.take(k)) <= decimal(s),
    decreases s.len() - k,
{
    if k < s.len() {
        lemma_decimal_grows(s, k + 1);
        assert(s.take(k + 1).drop_last() =~= s.take(k));
        lemma_decimal_nonneg(s.take(k));
    } else {
        assert(s.take(k) =~= s);
    }
}

/// Reads a decimal number that fits in a `u32`.
pub fn parse_number(s: &Vec<char>) -> (r: Option<u32>)
    ensures
        r == number(s@),
{
    if s.len() == 0 {
        return None;
    }
    let mut v: u64 = 0;
    let mut k: usize = 0;
    while k < s.len()
        invariant
            0 < s.len(),
            k <= s.len(),
            v == decimal(s@.take(k as int)),
            v <= u32::MAX,
            forall|i: int| 0 <= i < k ==> is_digit(#[trigger] s@[i]),
        decreases s.len() - k,
    {
        assert(s@.take(k + 1).drop_last() =~= s@.take(k as int));
        let c = s[k];
        if !('0' <= c && c <= '9') {
            assert(!is_digit(s@[k as int]));
            return None;
        }
        let d = (c as u32 - '0' as u32) as u64;
        v = v * 10 + d;
        if v > u32::MAX as u64 {
            proof {
                assert(is_digit(s@[k as int]));
                if forall|i: int| 0 <= i < s.len() ==> is_digit(#[trigger] s@[i]) {
                    lemma_decimal_grows(s@, k + 1);
                }
            }
            return None;
        }
        k += 1;
    }
    assert(s@.take(s.len() as int) =~= s@);
    Some(v as u32)
}

fn same_chars(a: &Vec<char>, b: &Vec<char>) -> (r: bool)
    ensures
        r == (a@ == b@),
{
    if a.len() != b.len() {
        return false;
    }
    let mut k: usize = 0;
    while k < a.len()
        invariant
            a.len() == b.len(),
            k <= a.len(),
            forall|i: int| 0 <= i < k ==> a@[i] == b@[i],
        decreases a.len() - k,
    {
        if a[k] != b[k] {
            return false;
        }
        k += 1;
    }
    assert(a@ =~= b@);
    true
}

/// The mask of a kind name; names that are no kind have none.
pub open spec fn kind_mask(w: Seq<char>) -> u32 {
    if w == seq!['c', 'o', 'l', 'd'] {
        COLD
    } else if w == seq!['r', 'a', 'd', 'i', 'a', 't', 'i', 'o', 'n'] {
        RADIATION
    } else if w == seq!['s', 'l', 'a', 's', 'h', 'i', 'n', 'g'] {
        SLASHING
    } else if w == seq!['f', 'i', 'r', 'e'] {
        FIRE
    } else if w == seq!['b', 'l', 'u', 'd', 'g', 'e', 'o', 'n', 'i', 'n', 'g'] {
        BLUDGEONING
    } else {
        0
    }
}

/// The mask of the kind named `kind`, or 0 for a name that is no kind.
pub fn kind_lookup(kind: &Vec<char>) -> (r: u32)
    ensures
        r == kind_mask(kind@),
{
    if same_chars(kind, &vec!['c', 'o', 'l', 'd']) {
        COLD
    } else if same_chars(kind, &vec!['r', 'a', 'd', 'i', 'a', 't', 'i', 'o', 'n']) {
        RADIATION
    } else if same_chars(kind, &vec!['s', 'l', 'a', 's', 'h', 'i', 'n', 'g']) {
        SLASHING
    } else if same_chars(kind, &vec!['f', 'i', 'r', 'e']) {
        FIRE
    } else if same_chars(kind, &vec!['b', 'l', 'u', 'd', 'g', 'e', 'o', 'n', 'i', 'n', 'g']) {
        BLUDGEONING
    } else {
        0
    }
}

pub open spec fn or_kinds(ps: Seq<Seq<char>>) -> u32
    decreases ps.len(),
{
    if ps.len() == 0 {
        0
    } else {
        or_kinds(ps.drop_last()) | kind_mask(ps.last())
    }
}

pub open spec fn list_separators() -> Seq<char> {
    seq![',', ' ']
}

/// The kinds named in a list such as "weak to fire, cold": the words between
/// commas and spaces, each looked up, their masks combined.
pub open spec fn list_mask(s: Seq<char>) -> u32 {
    or_kinds(split(s, list_separators()))
}

/// The mask of the kinds named in `list`.
pub fn parse_weak_or_immune(list: &Vec<char>) -> (r: u32)
    ensures
        r == list_mask(list@),
{
    let seps = vec![',', ' '];
    assert(seps@ =~= list_separators());
    let pieces = split_pieces(list, &seps);
    let mut acc: u32 = 0;
    let mut k: usize = 0;
    while k < pieces.len()
        invariant
            k <= pieces.len(),
            acc == or_kinds(views(pieces@).take(k as int)),
        decreases pieces.len() - k,
    {
        assert(views(pieces@).take(k + 1).drop_last() =~= views(pieces@).take(k as int));
        assert(views(pieces@).take(k + 1).last() == pieces@[k as int]@);
        acc = acc | kind_lookup(&pieces[k]);
        k += 1;
    }
    assert(views(pieces@).take(pieces.len() as int) =~= views(pieces@));
    acc
}

pub open spec fn text_at(s: Seq<char>, i: int, w: Seq<char>) -> bool {
    0 <= i && i + w.len() <= s.len() && s.subrange(i, i + w.len()) == w
}

pub open spec fn contains_text(s: Seq<char>, w: Seq<char>) -> bool {
    exists|i: int| #[trigger] text_at(s, i, w)
}

pub open spec fn weak_word() -> Seq<char> {
    seq!['w', 'e', 'a', 'k']
}

fn text_at_exec(s: &Vec<char>, i: usize, w: &Vec<char>) -> (r: bool)
    ensures
        r == text_at(s@, i as int, w@),
{
    if i > s.len() || w.len() > s.len() - i {
        return false;
    }
    let mut k: usize = 0;
    while k < w.len()
        invariant
            i + w.len() <= s.len(),
            k <= w.len(),
            forall|j: int| 0 <= j < k ==> s@[i + j] == w@[j],
        decreases w.len() - k,
    {
        if s[i + k] != w[k] {
            assert(s@.subrange(i as int, i + w.len())[k as int] != w@[k as int]);
            return false;
        }
        k += 1;
    }
    assert(s@.subrange(i as int, i + w.len()) =~= w@);
    true
}

fn contains_text_exec(s: &Vec<char>, w: &Vec<char>) -> (r: bool)
    ensures
        r == contains_text(s@, w@),
{
    let mut i: usize = 0;
    while i < s.len()
        invariant
            i <= s.len(),
            forall|j: int| 0 <= j < i ==> !#[trigger] text_at(s@, j, w@),
        decreases s.len() - i,
    {
        if text_at_exec(s, i, w) {
            return true;
        }
        i += 1;
    }
    if text_at_exec(s, s.len(), w) {
        return true;
    }
    assert forall|j: int| !#[trigger] text_at(s@, j, w@) by {
        if j > s.len() {
            assert(!text_at(s@, j, w@));
        }
    }
    false
}

/// `i` is the first position of `c` in `s`.
pub open spec fn first_at(s: Seq<char>, c: char, i: int) -> bool {
    0 <= i < s.len() && s[i] == c && forall|j: int| 0 <= j < i ==> s[j] != c
}

pub open spec fn has_char(s: Seq<char>, c: char) -> bool {
    exists|i: int| 0 <= i < s.len() && s[i] == c
}

pub open spec fn first_index(s: Seq<char>, c: char) -> int {
    choose|i: int| first_at(s, c, i)
}

pub proof fn lemma_first_unique(s: Seq<char>, c: char, i: int, j: int)
    requires
        first_at(s, c, i),
        first_at(s, c, j),
    ensures
        i == j,
{
}

fn find_char(s: &Vec<char>, c: char) -> (r: Option<usize>)
    ensures
        match r {
            Some(i) => first_at(s@, c, i as int) && first_index(s@, c) == i,
            None => !has_char(s@, c),
        },
{
    let mut k: usize = 0;
    while k < s.len()
        invariant
            k <= s.len(),
            forall|j: int| 0 <= j < k ==> s@[j] != c,
        decreases s.len() - k,
    {
        if s[k] == c {
            assert(first_at(s@, c, k as int));
            proof {
                let f = first_index(s@, c);
                lemma_first_unique(s@, c, f, k as int);
            }
            return Some(k);
        }
        k += 1;
    }
    None
}

fn slice(s: &Vec<char>, from: usize, to: usize) -> (r: Vec<char>)
    requires
        from <= to <= s.len(),
    ensures
        r@ == s@.subrange(from as int, to as int),
{
    let mut out: Vec<char> = Vec::new();
    let mut k: usize = from;
    while k < to
        invariant
            from <= k <= to <= s.len(),
            out@ == s@.subrange(from as int, k as int),
        decreases to - k,
    {
        out.push(s[k]);
        k += 1;
        assert(out@ =~= s@.subrange(from as int, k as int));
    }
    out
}

/// The text after the first `;` of a clause, without the one space that
/// follows it.
pub open spec fn after_separator(c: Seq<char>, i: int) -> Seq<char> {
    let rest = c.subrange(i + 1, c.len() as int);
    if rest.len() > 0 && rest[0] == ' ' {
        rest.drop_first()
    } else {
        rest
    }
}

/// The weakness and immunity masks of a clause such as
/// "weak to fire; immune to cold, slashing": with a `;`, the half that says
/// "weak" gives the weaknesses and the other the immunities; without one,
/// the whole clause gives the weaknesses if it says "weak", else the
/// immunities.
pub open spec fn clause_masks(c: Seq<char>) -> (u32, u32) {
    if has_char(c, ';') {
        let i = first_index(c, ';');
        let a = c.subrange(0, i);
        let b = after_separator(c, i);
        if contains_text(a, weak_word()) {
            (list_mask(a), list_mask(b))
        } else {
            (list_mask(b), list_mask(a))
        }
    } else if contains_text(c, weak_word()) {
        (list_mask(c), 0)
    } else {
        (0, list_mask(c))
    }
}

/// The weakness and immunity masks of the clause between parentheses.
pub fn parse_weak_and_immune(clause: &Vec<char>) -> (r: (u32, u32))
    ensures
        r == clause_masks(clause@),
{
    let weak = vec!['w', 'e', 'a', 'k'];
    assert(weak@ =~= weak_word());
    match find_char(clause, ';') {
        Some(i) => {
            assert(i < clause.len());
            let a = slice(clause, 0, i);
            let b = if i + 1 < clause.len() && clause[i + 1] == ' ' {
                slice(clause, i + 2, clause.len())
            } else {
                slice(clause, i + 1, clause.len())
            };
            assert(b@ =~= after_separator(clause@, i as int));
            if contains_text_exec(&a, &weak) {
                (parse_weak_or_immune(&a), parse_weak_or_immune(&b))
            } else {
                (parse_weak_or_immune(&b), parse_weak_or_immune(&a))
            }
        },
        None => {
            if contains_text_exec(clause, &weak) {
                (parse_weak_or_immune(clause), 0)
            } else {
                (0, parse_weak_or_immune(clause))
            }
        },
    }
}

/// Whatever the order of its two halves, a clause gives the same masks.
pub proof fn lemma_clause_order(a: Seq<char>, b: Seq<char>)
    requires
        !has_char(a, ';'),
        !has_char(b, ';'),
        contains_text(a, weak_word()) != contains_text(b, weak_word()),
    ensures
        clause_masks(a + seq![';', ' '] + b) == clause_masks(b + seq![';', ' '] + a),
{
    let ab = a + seq![';', ' '] + b;
    let ba = b + seq![';', ' '] + a;
    assert(first_at(ab, ';', a.len() as int));
    assert(first_at(ba, ';', b.len() as int));
    lemma_first_unique(ab, ';', first_index(ab, ';'), a.len() as int);
    lemma_first_unique(ba, ';', first_index(ba, ';'), b.len() as int);
    assert(ab.subrange(0, a.len() as int) =~= a);
    assert(ba.subrange(0, b.len() as int) =~= b);
    assert(after_separator(ab, a.len() as int) =~= b);
    assert(after_separator(ba, b.len() as int) =~= a);
}

/// The words of a line: its pieces between spaces, empty ones left out.
pub open spec fn words(l: Seq<char>) -> Seq<Seq<char>> {
    longer_than(split(l, seq![' ']), 0)
}

/// The fixed words of a group line, around its fields:
/// "N units each with H hit points [(...)] with an attack that does D K
/// damage at initiative I".
pub open spec fn fixed_words(w: Seq<Seq<char>>) -> bool {
    let n = w.len() as int;
    &&& n >= 18
    &&& w[1] == seq!['u', 'n', 'i', 't', 's']
    &&& w[2] == seq!['e', 'a', 'c', 'h']
    &&& w[3] == seq!['w', 'i', 't', 'h']
    &&& w[5] == seq!['h', 'i', 't']
    &&& w[6] == seq!['p', 'o', 'i', 'n', 't', 's']
    &&& w[n - 11] == seq!['w', 'i', 't', 'h']
    &&& w[n - 10] == seq!['a', 'n']
    &&& w[n - 9] == seq!['a', 't', 't', 'a', 'c', 'k']
    &&& w[n - 8] == seq!['t', 'h', 'a', 't']
    &&& w[n - 7] == seq!['d', 'o', 'e', 's']
    &&& w[n - 4] == seq!['d', 'a', 'm', 'a', 'g', 'e']
    &&& w[n - 3] == seq!['a', 't']
    &&& w[n - 2] == seq!['i', 'n', 'i', 't', 'i', 'a', 't', 'i', 'v', 'e']
}

/// The fields of a group line, read by word position: units first, hit
/// points fifth; attack damage sixth from the end, then the attack kind,
/// initiative last. The fixed words must stand around them, and a line with
/// no `(` has no other words.
pub open spec fn plain_fields(l: Seq<char>) -> Option<Group> {
    let w = words(l);
    let n = w.len() as int;
    if !fixed_words(w) || (n != 18 && !has_char(l, '(')) {
        None
    } else {
        match (number(w[0]), number(w[4]), number(w[n - 6]), number(w[n - 1])) {
            (Some(u), Some(h), Some(d), Some(init)) => Some(
                Group {
                    units: u,
                    hit_points: h,
                    attack_damage: d,
                    attack_kind: kind_mask(w[n - 5]),
                    weak: 0,
                    immune: 0,
                    initiative: init,
                },
            ),
            _ => None,
        }
    }
}

/// The text between the first `(` of a line and the first `)` after it.
pub open spec fn clause_text(l: Seq<char>) -> Option<Seq<char>> {
    if has_char(l, '(') {
        let after = l.subrange(first_index(l, '(') + 1, l.len() as int);
        if has_char(after, ')') {
            Some(after.subrange(0, first_index(after, ')')))
        } else {
            None
        }
    } else {
        None
    }
}

pub open spec fn clause_fields(l: Seq<char>) -> Option<Group> {
    match (plain_fields(l), clause_text(l)) {
        (Some(g), Some(c)) => Some(Group { weak: clause_masks(c).0, immune: clause_masks(c).1, ..g }),
        _ => None,
    }
}

/// A group line, with a clause of weaknesses and immunities when it holds a `(`.
pub open spec fn line_group(l: Seq<char>) -> Option<Group> {
    if has_char(l, '(') {
        clause_fields(l)
    } else {
        plain_fields(l)
    }
}

fn line_words(line: &Vec<char>) -> (r: Vec<Vec<char>>)
    ensures
        views(r@) == words(line@),
{
    let sp = vec![' '];
    assert(sp@ =~= seq![' ']);
    let pieces = split_pieces(line, &sp);
    keep_longer(pieces, 0)
}

fn has_fixed_words(w: &Vec<Vec<char>>) -> (r: bool)
    ensures
        r == fixed_words(views(w@)),
{
    let n = w.len();
    if n < 18 {
        return false;
    }
    assert(w@[1]@ == views(w@)[1]);
    assert(w@[2]@ == views(w@)[2]);
    assert(w@[3]@ == views(w@)[3]);
    assert(w@[5]@ == views(w@)[5]);
    assert(w@[6]@ == views(w@)[6]);
    assert(w@[n - 11]@ == views(w@)[n - 11]);
    assert(w@[n - 10]@ == views(w@)[n - 10]);
    assert(w@[n - 9]@ == views(w@)[n - 9]);
    assert(w@[n - 8]@ == views(w@)[n - 8]);
    assert(w@[n - 7]@ == views(w@)[n - 7]);
    assert(w@[n - 4]@ == views(w@)[n - 4]);
    assert(w@[n - 3]@ == views(w@)[n - 3]);
    assert(w@[n - 2]@ == views(w@)[n - 2]);
    same_chars(&w[1], &vec!['u', 'n', 'i', 't', 's'])
        && same_chars(&w[2], &vec!['e', 'a', 'c', 'h'])
        && same_chars(&w[3], &vec!['w', 'i', 't', 'h'])
        && same_chars(&w[5], &vec!['h', 'i', 't'])
        && same_chars(&w[6], &vec!['p', 'o', 'i', 'n', 't', 's'])
        && same_chars(&w[n - 11], &vec!['w', 'i', 't', 'h'])
        && same_chars(&w[n - 10], &vec!['a', 'n'])
        && same_chars(&w[n - 9], &vec!['a', 't', 't', 'a', 'c', 'k'])
        && same_chars(&w[n - 8], &vec!['t', 'h', 'a', 't'])
        && same_chars(&w[n - 7], &vec!['d', 'o', 'e', 's'])
        && same_chars(&w[n - 4], &vec!['d', 'a', 'm', 'a', 'g', 'e'])
        && same_chars(&w[n - 3], &vec!['a', 't'])
        && same_chars(&w[n - 2], &vec!['i', 'n', 'i', 't', 'i', 'a', 't', 'i', 'v', 'e'])
}

/// Reads a group line without a clause.
pub fn line_to_group(line: &Vec<char>) -> (r: Option<Group>)
    ensures
        r == plain_fields(line@),
{
    let w = line_words(line);
    let n = w.len();
    if !has_fixed_words(&w) {
        return None;
    }
    if n != 18 && find_char(line, '(').is_none() {
        return None;
    }
    assert(w@[0]@ == words(line@)[0]);
    assert(w@[4]@ == words(line@)[4]);
    assert(w@[n - 6]@ == words(line@)[n - 6]);
    assert(w@[n - 5]@ == words(line@)[n - 5]);
    assert(w@[n - 1]@ == words(line@)[n - 1]);
    let u = parse_number(&w[0]);
    let h = parse_number(&w[4]);
    let d = parse_number(&w[n - 6]);
    let init = parse_number(&w[n - 1]);
    match (u, h, d, init) {
        (Some(u), Some(h), Some(d), Some(init)) => Some(
            Group {
                units: u,
                hit_points: h,
                attack_damage: d,
                attack_kind: kind_lookup(&w[n - 5]),
                weak: 0,
                immune: 0,
                initiative: init,
            },
        ),
        _ => None,
    }
}

fn find_clause(line: &Vec<char>) -> (r: Option<Vec<char>>)
    ensures
        match r {
            Some(c) => clause_text(line@) == Some(c@),
            None => clause_text(line@) is None,
        },
{
    match find_char(line, '(') {
        Some(o) => {
            assert(o < line.len());
            let after = slice(line, o + 1, line.len());
            match find_char(&after, ')') {
                Some(c) => Some(slice(&after, 0, c)),
                None => None,
            }
        },
        None => None,
    }
}

/// Reads a group line with a clause of weaknesses and immunities.
pub fn line_to_group_with_weak_immune(line: &Vec<char>) -> (r: Option<Group>)
    ensures
        r == clause_fields(line@),
{
    match line_to_group(line) {
        Some(g) => match find_clause(line) {
            Some(c) => {
                let (weak, immune) = parse_weak_and_immune(&c);
                Some(Group { weak, immune, ..g })
            },
            None => None,
        },
        None => None,
    }
}

/// Reads a group line of either shape.
pub fn parse_group_line(line: &Vec<char>) -> (r: Option<Group>)
    ensures
        r == line_group(line@),
{
    match find_char(line, '(') {
        Some(_) => line_to_group_with_weak_immune(line),
        None => line_to_group(line),
    }
}

/// The groups of an army, one per line, or nothing if a line is malformed.
pub open spec fn army_groups(lines: Seq<Seq<char>>) -> Option<Seq<Group>>
    decreases lines.len(),
{
    if lines.len() == 0 {
        Some(Seq::empty())
    } else {
        match (army_groups(lines.drop_last()), line_group(lines.last())) {
            (Some(gs), Some(g)) => Some(gs.push(g)),
            _ => None,
        }
    }
}

/// Reads one group per line, positions following the lines.
pub fn lines_to_groups(lines: &Vec<Vec<char>>) -> (r: Option<Vec<Group>>)
    ensures
        match r {
            Some(gs) => army_groups(views(lines@)) == Some(gs@),
            None => army_groups(views(lines@)) is None,
        },
{
    let mut gs: Vec<Group> = Vec::new();
    let mut k: usize = 0;
    while k < lines.len()
        invariant
            k <= lines.len(),
            army_groups(views(lines@).take(k as int)) == Some(gs@),
        decreases lines.len() - k,
    {
        assert(views(lines@).take(k + 1).drop_last() =~= views(lines@).take(k as int));
        assert(views(lines@).take(k + 1).last() == lines@[k as int]@);
        match parse_group_line(&lines[k]) {
            Some(g) => {
                gs.push(g);
            },
            None => {
                proof {
                    lemma_army_groups_prefix(views(lines@), k + 1);
                }
                return None;
            },
        }
        k += 1;
    }
    assert(views(lines@).take(lines.len() as int) =~= views(lines@));
    Some(gs)
}

proof fn lemma_army_groups_prefix(lines: Seq<Seq<char>>, k: int)
    requires
        0 <= k <= lines.len(),
        army_groups(lines.take(k)) is None,
    ensures
        army_groups(lines) is None,
    decreases lines.len() - k,
{
    if k < lines.len() {
        assert(lines.take(k + 1).drop_last() =~= lines.take(k));
        lemma_army_groups_prefix(lines, k + 1);
    } else {
        assert(lines.take(k) =~= lines);
    }
}

/// The group lines of an army's text: its lines longer than 20 characters;
/// shorter ones are headers and blank lines.
pub open spec fn group_lines(s: Seq<char>) -> Seq<Seq<char>> {
    longer_than(split(s, seq!['\n']), 20)
}

/// Splits an army's text into lines and keeps the group lines.
pub fn seperate_and_filter_lines(text: &Vec<char>) -> (r: Vec<Vec<char>>)
    ensures
        views(r@) == group_lines(text@),
{
    let nl = vec!['\n'];
    assert(nl@ =~= seq!['\n']);
    let pieces = split_pieces(text, &nl);
    keep_longer(pieces, 20)
}

pub open spec fn marker() -> Seq<char> {
    seq!['I', 'n', 'f', 'e', 'c', 't', 'i', 'o', 'n']
}

/// The marker that opens the second army's text occurs exactly once, at `i`.
pub open spec fn sole_marker_at(s: Seq<char>, i: int) -> bool {
    text_at(s, i, marker()) && forall|j: int| #[trigger] text_at(s, j, marker()) ==> j == i
}

/// Both armies of an input text: the text before the marker word and the
/// text after it, each read as an army; nothing unless the marker occurs
/// exactly once, every group line reads, and no group has zero hit points
/// (such a group could not be attacked).
pub open spec fn parse_armies(s: Seq<char>) -> Option<(Seq<Group>, Seq<Group>)> {
    if exists|i: int| sole_marker_at(s, i) {
        let i = choose|i: int| sole_marker_at(s, i);
        match (
            army_groups(group_lines(s.subrange(0, i))),
            army_groups(group_lines(s.subrange(i + marker().len(), s.len() as int))),
        ) {
            (Some(im), Some(inf)) => if all_wf(im) && all_wf(inf) {
                Some((im, inf))
            } else {
                None
            },
            _ => None,
        }
    } else {
        None
    }
}

fn find_sole_marker(s: &Vec<char>, m: &Vec<char>) -> (r: Option<usize>)
    requires
        m@ == marker(),
    ensures
        match r {
            Some(i) => sole_marker_at(s@, i as int),
            None => !exists|i: int| sole_marker_at(s@, i),
        },
{
    let mut found: Option<usize> = None;
    let mut i: usize = 0;
    while i < s.len()
        invariant
            m@ == marker(),
            i <= s.len(),
            match found {
                Some(f) => f < i && text_at(s@, f as int, marker()) && forall|j: int|
                    0 <= j < i && #[trigger] text_at(s@, j, marker()) ==> j == f,
                None => forall|j: int| 0 <= j < i ==> !#[trigger] text_at(s@, j, marker()),
            },
        decreases s.len() - i,
    {
        if text_at_exec(s, i, m) {
            match found {
                Some(f) => {
                    assert(!sole_marker_at(s@, f as int));
                    assert forall|j: int| !sole_marker_at(s@, j) by {
                        if j != f {
                            assert(text_at(s@, f as int, marker()));
                        } else {
                            assert(text_at(s@, i as int, marker()));
                        }
                    }
                    return None;
                },
                None => {
                    found = Some(i);
                },
            }
        }
        i += 1;
    }
    assert forall|j: int| #[trigger] text_at(s@, j, marker()) implies 0 <= j < s.len() by {}
    match found {
        Some(f) => Some(f),
        None => {
            assert forall|j: int| !sole_marker_at(s@, j) by {
                if text_at(s@, j, marker()) {
                    assert(j < s.len());
                }
            }
            None
        },
    }
}

/// Reads both armies from an input text.
pub fn parse_input(text: &str) -> (r: Option<Battle>)
    ensures
        match r {
            Some(b) => parse_armies(text@) == Some((b.immune@, b.infection@)) && b.wf(),
            None => parse_armies(text@) is None,
        },
{
    let s = chars_of(text);
    let m = vec!['I', 'n', 'f', 'e', 'c', 't', 'i', 'o', 'n'];
    assert(m@ =~= marker());
    match find_sole_marker(&s, &m) {
        Some(i) => {
            proof {
                let c = choose|j: int| sole_marker_at(s@, j);
                assert(text_at(s@, c, marker()));
            }
            let first = slice(&s, 0, i);
            let second = slice(&s, i + 9, s.len());
            let im = lines_to_groups(&seperate_and_filter_lines(&first));
            let inf = lines_to_groups(&seperate_and_filter_lines(&second));
            match (im, inf) {
                (Some(im), Some(inf)) => {
                    let b = Battle::new(im, inf);
                    if b.is_valid() {
                        Some(b)
                    } else {
                        None
                    }
                },
                _ => None,
            }
        },
        None => None,
    }
}

proof fn lemma_split_len(s: Seq<char>, seps: Seq<char>)
    ensures
        split(s, seps).len() >= 1,
    decreases s.len(),
{
    if s.len() > 0 {
        lemma_split_len(s.drop_last(), seps);
    }
}

proof fn lemma_split_no_separator(w: Seq<char>, seps: Seq<char>)
    requires
        forall|i: int| 0 <= i < w.len() ==> !seps.contains(#[trigger] w[i]),
    ensures
        split(w, seps) == seq![w],
    decreases w.len(),
{
    if w.len() > 0 {
        lemma_split_no_separator(w.drop_last(), seps);
        assert(w.drop_last().push(w.last()) =~= w);
        assert(seq![w.drop_last()].update(0, w.drop_last().push(w.last())) =~= seq![w]);
    } else {
        assert(w =~= Seq::<char>::empty());
    }
}

/// After a separator, the pieces of what follows start afresh.
proof fn lemma_split_append(p: Seq<char>, q: Seq<char>, seps: Seq<char>)
    requires
        p.len() > 0,
        seps.contains(p.last()),
    ensures
        split(p + q, seps) == split(p, seps).drop_last() + split(q, seps),
    decreases q.len(),
{
    if q.len() == 0 {
        assert(p + q =~= p);
        assert(split(p, seps).drop_last() + split(q, seps) =~= split(p, seps));
    } else {
        let q1 = q.drop_last();
        assert((p + q).drop_last() =~= p + q1);
        assert((p + q).last() == q.last());
        lemma_split_append(p, q1, seps);
        lemma_split_len(q1, seps);
        let d = split(p, seps).drop_last();
        let s1 = split(q1, seps);
        if seps.contains(q.last()) {
            assert((d + s1).push(Seq::empty()) =~= d + s1.push(Seq::empty()));
        } else {
            assert((d + s1).update((d + s1).len() - 1, (d + s1).last().push(q.last())) =~= d + s1.update(
                s1.len() - 1,
                s1.last().push(q.last()),
            ));
        }
    }
}

proof fn lemma_or_kinds_append(a: Seq<Seq<char>>, b: Seq<Seq<char>>)
    ensures
        or_kinds(a + b) == or_kinds(a) | or_kinds(b),
    decreases b.len(),
{
    if b.len() == 0 {
        assert(a + b =~= a);
        let x = or_kinds(a);
        assert(x | 0u32 == x) by (bit_vector);
    } else {
        assert((a + b).drop_last() =~= a + b.drop_last());
        lemma_or_kinds_append(a, b.drop_last());
        let x = or_kinds(a);
        let y = or_kinds(b.drop_last());
        let z = kind_mask(b.last());
        assert((x | y) | z == x | (y | z)) by (bit_vector);
    }
}

pub open spec fn weak_to() -> Seq<char> {
    seq!['w', 'e', 'a', 'k', ' ', 't', 'o', ' ']
}

pub open spec fn immune_to() -> Seq<char> {
    seq!['i', 'm', 'm', 'u', 'n', 'e', ' ', 't', 'o', ' ']
}

/// A list after a lead-in of two words that name no kind has the masks of the
/// list alone.
proof fn lemma_lead_in(w1: Seq<char>, w2: Seq<char>, x: Seq<char>)
    requires
        w1.len() > 0,
        w2.len() > 0,
        forall|i: int| 0 <= i < w1.len() ==> !list_separators().contains(#[trigger] w1[i]),
        forall|i: int| 0 <= i < w2.len() ==> !list_separators().contains(#[trigger] w2[i]),
        kind_mask(w1) == 0,
        kind_mask(w2) == 0,
    ensures
        list_mask(w1 + seq![' '] + w2 + seq![' '] + x) == list_mask(x),
{
    let seps = list_separators();
    assert(seps.contains(' ')) by {
        assert(seps[1] == ' ');
    }
    let p1 = w1 + seq![' '];
    let p2 = w2 + seq![' '];
    lemma_split_no_separator(w1, seps);
    lemma_split_no_separator(w2, seps);
    assert(p1.drop_last() =~= w1);
    assert(p2.drop_last() =~= w2);
    assert(split(p1, seps) == seq![w1].push(Seq::empty()));
    assert(split(p2, seps) == seq![w2].push(Seq::empty()));
    assert(w1 + seq![' '] + w2 + seq![' '] + x =~= p1 + (p2 + x));
    lemma_split_append(p1, p2 + x, seps);
    lemma_split_append(p2, x, seps);
    let sx = split(x, seps);
    assert(split(p1, seps).drop_last() =~= seq![w1]);
    assert(split(p2, seps).drop_last() =~= seq![w2]);
    assert(seq![w1] + (seq![w2] + sx) =~= seq![w1, w2] + sx);
    lemma_or_kinds_append(seq![w1, w2], sx);
    assert(seq![w1, w2].drop_last() =~= seq![w1]);
    assert(seq![w1].drop_last() =~= Seq::<Seq<char>>::empty());
    let m = or_kinds(sx);
    assert(split(p1 + (p2 + x), seps) == seq![w1, w2] + sx);
    assert(or_kinds(Seq::<Seq<char>>::empty()) == 0u32);
    assert(or_kinds(seq![w1]) == or_kinds(Seq::<Seq<char>>::empty()) | kind_mask(w1));
    let k1 = kind_mask(w1);
    assert(0u32 | k1 == 0u32) by (bit_vector)
        requires
            k1 == 0u32,
    ;
    assert(or_kinds(seq![w1]) == 0u32);
    let k2 = kind_mask(w2);
    assert(0u32 | k2 == 0u32) by (bit_vector)
        requires
            k2 == 0u32,
    ;
    assert(seq![w1, w2].last() == w2);
    assert(or_kinds(seq![w1, w2]) == or_kinds(seq![w1]) | kind_mask(w2));
    assert(or_kinds(seq![w1, w2]) == 0u32);
    assert(0u32 | m == m) by (bit_vector);
    assert(list_mask(p1 + (p2 + x)) == or_kinds(seq![w1, w2] + sx));
}

proof fn lemma_weak_to_mask(x: Seq<char>)
    ensures
        list_mask(weak_to() + x) == list_mask(x),
{
    let w1 = seq!['w', 'e', 'a', 'k'];
    let w2 = seq!['t', 'o'];
    assert(weak_to() + x =~= w1 + seq![' '] + w2 + seq![' '] + x);
    assert(w1 != seq!['c', 'o', 'l', 'd']) by {
        assert(seq!['c', 'o', 'l', 'd'][0] == 'c');
    }
    assert(w1 != seq!['f', 'i', 'r', 'e']) by {
        assert(seq!['f', 'i', 'r', 'e'][0] == 'f');
    }
    lemma_lead_in(w1, w2, x);
}

proof fn lemma_immune_to_mask(x: Seq<char>)
    ensures
        list_mask(immune_to() + x) == list_mask(x),
{
    let w1 = seq!['i', 'm', 'm', 'u', 'n', 'e'];
    let w2 = seq!['t', 'o'];
    assert(immune_to() + x =~= w1 + seq![' '] + w2 + seq![' '] + x);
    lemma_lead_in(w1, w2, x);
}

/// "weak to X; immune to Y", in either order, gives the kinds named in X as
/// weaknesses and those named in Y as immunities.
pub proof fn lemma_clause_lists(x: Seq<char>, y: Seq<char>)
    requires
        !has_char(x, ';'),
        !has_char(y, ';'),
        !contains_text(y, weak_word()),
    ensures
        clause_masks(weak_to() + x + seq![';', ' '] + immune_to() + y) == (list_mask(x), list_mask(y)),
        clause_masks(immune_to() + y + seq![';', ' '] + weak_to() + x) == (list_mask(x), list_mask(y)),
{
    let a = weak_to() + x;
    let b = immune_to() + y;
    assert(!has_char(a, ';')) by {
        if has_char(a, ';') {
            let i = choose|i: int| 0 <= i < a.len() && a[i] == ';';
            if i >= 8 {
                assert(x[i - 8] == ';');
            }
        }
    }
    assert(!has_char(b, ';')) by {
        if has_char(b, ';') {
            let i = choose|i: int| 0 <= i < b.len() && b[i] == ';';
            if i >= 10 {
                assert(y[i - 10] == ';');
            }
        }
    }
    assert(text_at(a, 0, weak_word())) by {
        assert(a.subrange(0, 4) =~= weak_word());
    }
    assert(!contains_text(b, weak_word())) by {
        if contains_text(b, weak_word()) {
            let i = choose|i: int| #[trigger] text_at(b, i, weak_word());
            assert(b.subrange(i, i + 4)[0] == 'w');
            if i >= 10 {
                assert(y.subrange(i - 10, i - 6) =~= b.subrange(i, i + 4));
                assert(text_at(y, i - 10, weak_word()));
            }
        }
    }
    lemma_clause_order(a, b);
    let ab = a + seq![';', ' '] + b;
    assert(first_at(ab, ';', a.len() as int));
    lemma_first_unique(ab, ';', first_index(ab, ';'), a.len() as int);
    assert(ab.subrange(0, a.len() as int) =~= a);
    assert(after_separator(ab, a.len() as int) =~= b);
    lemma_weak_to_mask(x);
    lemma_immune_to_mask(y);
    assert(weak_to() + x + seq![';', ' '] + immune_to() + y =~= ab);
    assert(immune_to() + y + seq![';', ' '] + weak_to() + x =~= b + seq![';', ' '] + a);
}

} // verus!
