//! Strings as sequences of characters: comparing, joining and rendering them.
use vstd::prelude::*;

use crate::list::{law_true_places_ascend, true_places};

verus! {

/// The texts that a sequence of strings holds.
pub open spec fn texts(list: Seq<String>) -> Seq<Seq<char>> {
    Seq::new(list.len(), |i: int| list[i]@)
}

/// The texts that a sequence of string lists holds.
pub open spec fn text_lists(lists: Seq<Vec<String>>) -> Seq<Seq<Seq<char>>> {
    Seq::new(lists.len(), |i: int| texts(lists[i]@))
}

/// `parts` one after another with `sep` between neighbours.
pub open spec fn joined(parts: Seq<Seq<char>>, sep: Seq<char>) -> Seq<char>
    decreases parts.len(),
{
    if parts.len() == 0 {
        Seq::empty()
    } else if parts.len() == 1 {
        parts[0]
    } else {
        joined(parts.drop_last(), sep) + sep + parts.last()
    }
}

/// `a` stands before `b` in dictionary order of their code points.
pub open spec fn text_below(a: Seq<char>, b: Seq<char>) -> bool
    decreases a.len(),
{
    if b.len() == 0 {
        false
    } else if a.len() == 0 {
        true
    } else if a[0] != b[0] {
        a[0] < b[0]
    } else {
        text_below(a.drop_first(), b.drop_first())
    }
}

/// `a` stands before `b` in dictionary order of their texts.
pub open spec fn list_below(a: Seq<Seq<char>>, b: Seq<Seq<char>>) -> bool
    decreases a.len(),
{
    if b.len() == 0 {
        false
    } else if a.len() == 0 {
        true
    } else if a[0] != b[0] {
        text_below(a[0], b[0])
    } else {
        list_below(a.drop_first(), b.drop_first())
    }
}

/// The decimal digit of a number below ten.
pub open spec fn digit(n: nat) -> char {
    (('0' as u32) + n) as char
}

/// A number in decimal digits, without leading zeros.
pub open spec fn decimal(n: nat) -> Seq<char>
    decreases n,
{
    if n < 10 {
        seq![digit(n)]
    } else {
        decimal(n / 10).push(digit(n % 10))
    }
}

/// A number in at least three decimal digits, filled up with leading zeros.
pub open spec fn decimal3(n: nat) -> Seq<char> {
    if n < 10 {
        seq!['0', '0'] + decimal(n)
    } else if n < 100 {
        seq!['0'] + decimal(n)
    } else {
        decimal(n)
    }
}

proof fn lemma_text_below_irreflexive(a: Seq<char>)
    ensures
        !text_below(a, a),
    decreases a.len(),
{
    if a.len() > 0 {
        lemma_text_below_irreflexive(a.drop_first());
    }
}

/// Dictionary order is a strict total order on texts.
pub proof fn law_text_order_is_total(a: Seq<char>, b: Seq<char>)
    ensures
        text_below(a, b) ==> !text_below(b, a),
        a != b ==> text_below(a, b) || text_below(b, a),
        a == b ==> !text_below(a, b),
    decreases a.len(),
{
    lemma_text_below_irreflexive(a);
    if a.len() > 0 && b.len() > 0 {
        law_text_order_is_total(a.drop_first(), b.drop_first());
        if a[0] == b[0] && a.drop_first() == b.drop_first() {
            assert(a =~= seq![a[0]] + a.drop_first());
            assert(b =~= seq![b[0]] + b.drop_first());
        }
    } else if a.len() == 0 && b.len() == 0 {
        assert(a =~= b);
    }
}

/// Dictionary order on texts is transitive.
pub proof fn law_text_order_is_transitive(a: Seq<char>, b: Seq<char>, c: Seq<char>)
    requires
        text_below(a, b),
        text_below(b, c),
    ensures
        text_below(a, c),
    decreases a.len(),
{
    if a.len() > 0 && b.len() > 0 && c.len() > 0 && a[0] == b[0] && b[0] == c[0] {
        law_text_order_is_transitive(a.drop_first(), b.drop_first(), c.drop_first());
    }
}

/// Dictionary order on lists of texts is a strict total order.
pub proof fn law_list_order_is_total(a: Seq<Seq<char>>, b: Seq<Seq<char>>)
    ensures
        list_below(a, b) ==> !list_below(b, a),
        a != b ==> list_below(a, b) || list_below(b, a),
        a == b ==> !list_below(a, b),
    decreases a.len(),
{
    if a.len() > 0 && b.len() > 0 {
        law_text_order_is_total(a[0], b[0]);
        law_list_order_is_total(a.drop_first(), b.drop_first());
        if a[0] == b[0] && a.drop_first() == b.drop_first() {
            assert(a =~= seq![a[0]] + a.drop_first());
            assert(b =~= seq![b[0]] + b.drop_first());
        }
    } else if a.len() == 0 && b.len() == 0 {
        assert(a =~= b);
    }
}

/// Dictionary order on lists of texts is transitive.
pub proof fn law_list_order_is_transitive(
    a: Seq<Seq<char>>,
    b: Seq<Seq<char>>,
    c: Seq<Seq<char>>,
)
    requires
        list_below(a, b),
        list_below(b, c),
    ensures
        list_below(a, c),
    decreases a.len(),
{
    if a.len() > 0 && b.len() > 0 && c.len() > 0 {
        if a[0] == b[0] && b[0] == c[0] {
            law_list_order_is_transitive(a.drop_first(), b.drop_first(), c.drop_first());
        } else if a[0] != b[0] && b[0] != c[0] {
            law_text_order_is_transitive(a[0], b[0], c[0]);
            law_text_order_is_total(a[0], c[0]);
        }
    }
}

/// Whether two string slices hold the same text.
pub fn same_text(a: &str, b: &str) -> (r: bool)
    ensures
        r == (a@ == b@),
{
    let left = a.to_owned();
    let right = b.to_owned();
    left == right
}

/// A string's own copy of a text.
pub fn text_of(s: &str) -> (r: String)
    ensures
        r@ == s@,
{
    s.to_owned()
}

/// Whether a list holds a text.
pub fn holds(list: &Vec<String>, text: &String) -> (r: bool)
    ensures
        r == texts(list@).contains(text@),
{
    let mut i: usize = 0;
    while i < list.len()
        invariant
            i <= list.len(),
            forall|k: int| 0 <= k < i ==> list[k]@ != text@,
        decreases list.len() - i,
    {
        if list[i] == *text {
            assert(texts(list@)[i as int] == text@);
            return true;
        }
        i += 1;
    }
    assert(!texts(list@).contains(text@)) by {
        assert forall|k: int| 0 <= k < texts(list@).len() implies texts(list@)[k] != text@ by {
            assert(texts(list@)[k] == list[k]@);
        }
    }
    false
}

/// A copy of a list of strings.
pub fn copy_texts(list: &Vec<String>) -> (r: Vec<String>)
    ensures
        texts(r@) == texts(list@),
        r@.len() == list@.len(),
{
    let mut out: Vec<String> = Vec::new();
    let mut i: usize = 0;
    while i < list.len()
        invariant
            i <= list.len(),
            out.len() == i,
            forall|k: int| 0 <= k < i ==> (#[trigger] out[k])@ == list[k]@,
        decreases list.len() - i,
    {
        out.push(list[i].clone());
        i += 1;
    }
    assert(texts(out@) =~= texts(list@));
    out
}

/// A copy of the strings from `from` up to `to`.
pub fn copy_range(list: &Vec<String>, from: usize, to: usize) -> (r: Vec<String>)
    requires
        from <= to <= list@.len(),
    ensures
        texts(r@) == texts(list@).subrange(from as int, to as int),
{
    let mut out: Vec<String> = Vec::new();
    let mut i: usize = from;
    while i < to
        invariant
            from <= i <= to <= list@.len(),
            out.len() == i - from,
            forall|k: int| 0 <= k < i - from ==> (#[trigger] out[k])@ == list[from + k]@,
        decreases to - i,
    {
        out.push(list[i].clone());
        i += 1;
    }
    assert(texts(out@) =~= texts(list@).subrange(from as int, to as int));
    out
}

/// The strings one after another with `sep` between neighbours.
pub fn join(parts: &Vec<String>, sep: &str) -> (r: String)
    ensures
        r@ == joined(texts(parts@), sep@),
{
    let mut out = String::new();
    let mut i: usize = 0;
    while i < parts.len()
        invariant
            i <= parts.len(),
            out@ == joined(texts(parts@).take(i as int), sep@),
        decreases parts.len() - i,
    {
        let ghost before = texts(parts@).take(i as int);
        let ghost after = texts(parts@).take(i + 1);
        assert(after.drop_last() =~= before);
        if i > 0 {
            out.append(sep);
        }
        out.append(parts[i].as_str());
        assert(out@ =~= joined(after, sep@));
        i += 1;
    }
    assert(texts(parts@).take(i as int) =~= texts(parts@));
    out
}

/// Whether `a` stands before `b` in dictionary order.
pub fn is_text_below(a: &str, b: &str) -> (r: bool)
    ensures
        r == text_below(a@, b@),
{
    let n: usize = a.unicode_len();
    let m: usize = b.unicode_len();
    let mut i: usize = 0;
    assert(a@.skip(0) =~= a@);
    assert(b@.skip(0) =~= b@);
    while i < n && i < m
        invariant
            n == a@.len(),
            m == b@.len(),
            i <= n,
            i <= m,
            text_below(a@, b@) == text_below(a@.skip(i as int), b@.skip(i as int)),
        decreases n - i,
    {
        let x: char = a.get_char(i);
        let y: char = b.get_char(i);
        assert(a@.skip(i as int)[0] == x);
        assert(b@.skip(i as int)[0] == y);
        if x != y {
            return x < y;
        }
        assert(a@.skip(i as int).drop_first() =~= a@.skip(i + 1));
        assert(b@.skip(i as int).drop_first() =~= b@.skip(i + 1));
        i += 1;
    }
    i < m
}

/// Whether `a` stands before `b` in dictionary order of their strings.
pub fn is_list_below(a: &Vec<String>, b: &Vec<String>) -> (r: bool)
    ensures
        r == list_below(texts(a@), texts(b@)),
{
    let mut i: usize = 0;
    assert(texts(a@).skip(0) =~= texts(a@));
    assert(texts(b@).skip(0) =~= texts(b@));
    while i < a.len() && i < b.len()
        invariant
            i <= a.len(),
            i <= b.len(),
            list_below(texts(a@), texts(b@)) == list_below(
                texts(a@).skip(i as int),
                texts(b@).skip(i as int),
            ),
        decreases a.len() - i,
    {
        assert(texts(a@).skip(i as int)[0] == a[i as int]@);
        assert(texts(b@).skip(i as int)[0] == b[i as int]@);
        if !(a[i] == b[i]) {
            return is_text_below(a[i].as_str(), b[i].as_str());
        }
        assert(texts(a@).skip(i as int).drop_first() =~= texts(a@).skip(i + 1));
        assert(texts(b@).skip(i as int).drop_first() =~= texts(b@).skip(i + 1));
        i += 1;
    }
    i < b.len()
}

fn digit_text(n: u64) -> (r: &'static str)
    requires
        n < 10,
    ensures
        r@ == seq![digit(n as nat)],
{
    proof {
        reveal_strlit("0");
        reveal_strlit("1");
        reveal_strlit("2");
        reveal_strlit("3");
        reveal_strlit("4");
        reveal_strlit("5");
        reveal_strlit("6");
        reveal_strlit("7");
        reveal_strlit("8");
        reveal_strlit("9");
    }
    let r: &'static str = match n {
        0 => "0",
        1 => "1",
        2 => "2",
        3 => "3",
        4 => "4",
        5 => "5",
        6 => "6",
        7 => "7",
        8 => "8",
        _ => "9",
    };
    assert(r@ =~= seq![digit(n as nat)]);
    r
}

/// A number in decimal digits.
pub fn decimal_text(n: u64) -> (r: String)
    ensures
        r@ == decimal(n as nat),
    decreases n,
{
    if n < 10 {
        text_of(digit_text(n))
    } else {
        let mut head = decimal_text(n / 10);
        let last = digit_text(n % 10);
        head.append(last);
        assert(head@ =~= decimal(n as nat));
        head
    }
}

/// A number in at least three decimal digits.
pub fn decimal3_text(n: u64) -> (r: String)
    ensures
        r@ == decimal3(n as nat),
{
    proof {
        reveal_strlit("0");
        reveal_strlit("00");
    }
    let digits = decimal_text(n);
    let mut out = if n < 10 {
        text_of("00")
    } else if n < 100 {
        text_of("0")
    } else {
        String::new()
    };
    out.append(digits.as_str());
    assert(out@ =~= decimal3(n as nat));
    out
}

/// A Unicode white-space character.
pub open spec fn white(c: char) -> bool {
    let n = c as u32;
    9 <= n <= 13 || n == 0x20 || n == 0x85 || n == 0xA0 || n == 0x1680 || 0x2000 <= n <= 0x200A
        || n == 0x2028 || n == 0x2029 || n == 0x202F || n == 0x205F || n == 0x3000
}

/// The text without white space in front.
pub open spec fn trimmed_front(text: Seq<char>) -> Seq<char>
    decreases text.len(),
{
    if text.len() > 0 && white(text[0]) {
        trimmed_front(text.drop_first())
    } else {
        text
    }
}

/// The text without white space behind.
pub open spec fn trimmed_back(text: Seq<char>) -> Seq<char>
    decreases text.len(),
{
    if text.len() > 0 && white(text.last()) {
        trimmed_back(text.drop_last())
    } else {
        text
    }
}

/// The text without white space at either end.
pub open spec fn trimmed(text: Seq<char>) -> Seq<char> {
    trimmed_back(trimmed_front(text))
}

fn is_white(c: char) -> (r: bool)
    ensures
        r == white(c),
{
    let n: u32 = c as u32;
    (9 <= n && n <= 13) || n == 0x20 || n == 0x85 || n == 0xA0 || n == 0x1680 || (0x2000 <= n && n
        <= 0x200A) || n == 0x2028 || n == 0x2029 || n == 0x202F || n == 0x205F || n == 0x3000
}

/// The text without white space at either end.
pub fn trim_text(text: &str) -> (r: &str)
    ensures
        r@ == trimmed(text@),
{
    let n: usize = text.unicode_len();
    let mut from: usize = 0;
    assert(text@.skip(0) =~= text@);
    while from < n && is_white(text.get_char(from))
        invariant
            n == text@.len(),
            from <= n,
            trimmed_front(text@) == trimmed_front(text@.skip(from as int)),
        decreases n - from,
    {
        assert(text@.skip(from as int)[0] == text@[from as int]);
        assert(text@.skip(from as int).drop_first() =~= text@.skip(from + 1));
        from += 1;
    }
    proof {
        if from < n {
            assert(text@.skip(from as int)[0] == text@[from as int]);
        }
        assert(trimmed_front(text@) == text@.skip(from as int));
        assert(text@.subrange(from as int, n as int) =~= text@.skip(from as int));
    }
    let mut to: usize = n;
    while to > from && is_white(text.get_char(to - 1))
        invariant
            n == text@.len(),
            from <= to <= n,
            trimmed_back(text@.skip(from as int)) == trimmed_back(
                text@.subrange(from as int, to as int),
            ),
        decreases to,
    {
        let ghost part = text@.subrange(from as int, to as int);
        assert(part.last() == text@[to - 1]);
        assert(part.drop_last() =~= text@.subrange(from as int, to - 1));
        to -= 1;
    }
    proof {
        let part = text@.subrange(from as int, to as int);
        if to > from {
            assert(part.last() == text@[to - 1]);
        }
    }
    text.substring_char(from, to)
}

/// Places at which a separator splits a text, as the parts between them.
pub open spec fn split_at_char(text: Seq<char>, sep: char) -> Seq<Seq<char>>
    decreases text.len(),
{
    if !text.contains(sep) {
        seq![text]
    } else {
        let at = first_place(text, sep);
        if 0 <= at < text.len() {
            seq![text.take(at)] + split_at_char(text.skip(at + 1), sep)
        } else {
            seq![text]
        }
    }
}

/// The first place of a character in a text; its length if there is none.
pub open spec fn first_place(text: Seq<char>, c: char) -> int
    decreases text.len(),
{
    if text.len() == 0 || text[0] == c {
        0
    } else {
        1 + first_place(text.drop_first(), c)
    }
}

proof fn lemma_first_place(text: Seq<char>, c: char)
    ensures
        0 <= first_place(text, c) <= text.len(),
        forall|k: int| 0 <= k < first_place(text, c) ==> text[k] != c,
        first_place(text, c) < text.len() ==> text[first_place(text, c)] == c,
        text.contains(c) <==> first_place(text, c) < text.len(),
    decreases text.len(),
{
    if text.len() > 0 && text[0] != c {
        let rest = text.drop_first();
        lemma_first_place(rest, c);
        assert forall|k: int| 0 <= k < first_place(text, c) implies text[k] != c by {
            if k > 0 {
                assert(rest[k - 1] == text[k]);
            }
        }
        if text.contains(c) {
            let k = choose|k: int| 0 <= k < text.len() && text[k] == c;
            assert(rest[k - 1] == c);
        }
    } else if text.len() > 0 {
        assert(text.contains(text[0]));
    }
}

/// The first place of `c` from `from` on; the text's length if there is none.
fn find_char(text: &str, n: usize, c: char, from: usize) -> (at: usize)
    requires
        n == text@.len(),
        from <= n,
    ensures
        at == from + first_place(text@.skip(from as int), c),
        from <= at <= n,
{
    let mut at: usize = from;
    while at < n && text.get_char(at) != c
        invariant
            n == text@.len(),
            from <= at <= n,
            from + first_place(text@.skip(from as int), c) == at + first_place(
                text@.skip(at as int),
                c,
            ),
        decreases n - at,
    {
        assert(text@.skip(at as int)[0] == text@[at as int]);
        assert(text@.skip(at as int).drop_first() =~= text@.skip(at + 1));
        at += 1;
    }
    proof {
        if at < n {
            assert(text@.skip(at as int)[0] == text@[at as int]);
        }
    }
    at
}

/// The parts of a text between the places of a separator.
pub fn split_text(text: &str, sep: char) -> (r: Vec<String>)
    ensures
        texts(r@) == split_at_char(text@, sep),
        r@.len() > 0,
{
    let n: usize = text.unicode_len();
    let mut out: Vec<String> = Vec::new();
    let mut from: usize = 0;
    proof {
        assert(text@.skip(0) =~= text@);
        assert(texts(out@) =~= Seq::<Seq<char>>::empty());
        assert(texts(out@) + split_at_char(text@, sep) =~= split_at_char(text@, sep));
    }
    loop
        invariant_except_break
            texts(out@) + split_at_char(text@.skip(from as int), sep) == split_at_char(text@, sep),
        invariant
            n == text@.len(),
            from <= n,
        ensures
            texts(out@) == split_at_char(text@, sep),
            out@.len() > 0,
        decreases n - from,
    {
        let ghost rest = text@.skip(from as int);
        let ghost before = out@;
        proof {
            lemma_first_place(rest, sep);
        }
        let at: usize = find_char(text, n, sep, from);
        let part = text.substring_char(from, at).to_owned();
        out.push(part);
        proof {
            assert(texts(out@) =~= texts(before).push(part@));
            assert(part@ =~= rest.take(at - from));
        }
        if at == n {
            proof {
                assert(rest.take(at - from) =~= rest);
                assert(texts(before) + seq![rest] =~= texts(out@));
            }
            break;
        }
        proof {
            assert(rest.skip(at - from + 1) =~= text@.skip(at + 1));
            assert(texts(before) + (seq![rest.take(at - from)] + split_at_char(
                text@.skip(at + 1),
                sep,
            )) =~= texts(out@) + split_at_char(text@.skip(at + 1), sep));
        }
        from = at + 1;
    }
    out
}

/// The text before and behind the first place of a separator.
pub fn split_once_text(text: &str, sep: char) -> (r: Option<(String, String)>)
    ensures
        match r {
            Some((before, behind)) => {
                let at = first_place(text@, sep);
                &&& text@.contains(sep)
                &&& before@ == text@.take(at)
                &&& behind@ == text@.skip(at + 1)
            },
            None => !text@.contains(sep),
        },
{
    let n: usize = text.unicode_len();
    proof {
        lemma_first_place(text@, sep);
        assert(text@.skip(0) =~= text@);
    }
    let at: usize = find_char(text, n, sep, 0);
    if at == n {
        return None;
    }
    let before = text.substring_char(0, at).to_owned();
    let behind = text.substring_char(at + 1, n).to_owned();
    proof {
        assert(before@ =~= text@.take(at as int));
        assert(behind@ =~= text@.skip(at + 1));
    }
    Some((before, behind))
}

/// The last `most` characters of a text.
pub open spec fn tail_of(text: Seq<char>, most: int) -> Seq<char> {
    if text.len() <= most {
        text
    } else {
        text.skip(text.len() - most)
    }
}

/// The last `most` characters of a text.
pub fn tail_text(text: &str, most: usize) -> (r: &str)
    ensures
        r@ == tail_of(text@, most as int),
{
    let n: usize = text.unicode_len();
    if n <= most {
        return text;
    }
    let r = text.substring_char(n - most, n);
    assert(r@ =~= tail_of(text@, most as int));
    r
}

/// A list with a text added, unless it is there already.
pub open spec fn with_text(list: Seq<Seq<char>>, text: Seq<char>) -> Seq<Seq<char>> {
    if list.contains(text) {
        list
    } else {
        list.push(text)
    }
}

/// A list with texts added one by one, each unless it is there already.
pub open spec fn with_texts(list: Seq<Seq<char>>, more: Seq<Seq<char>>) -> Seq<Seq<char>>
    decreases more.len(),
{
    if more.len() == 0 {
        list
    } else {
        with_text(with_texts(list, more.drop_last()), more.last())
    }
}

/// Adds a text to a list, unless it is there already.
pub fn note(list: &mut Vec<String>, text: &String)
    ensures
        texts(final(list)@) == with_text(texts(old(list)@), text@),
{
    let ghost before = texts(list@);
    if !holds(list, text) {
        list.push(text.clone());
        assert(texts(list@) =~= before.push(text@));
    }
}

/// Adding texts so leaves each once, and adds nothing else.
pub proof fn law_noted_texts_stand_once(list: Seq<Seq<char>>, more: Seq<Seq<char>>)
    requires
        list.no_duplicates(),
    ensures
        with_texts(list, more).no_duplicates(),
        forall|t: Seq<char>| #[trigger]
            with_texts(list, more).contains(t) <==> list.contains(t) || more.contains(t),
    decreases more.len(),
{
    if more.len() > 0 {
        let init = more.drop_last();
        law_noted_texts_stand_once(list, init);
        let before = with_texts(list, init);
        let after = with_texts(list, more);
        assert forall|t: Seq<char>| after.contains(t) <==> list.contains(t) || more.contains(t) by {
            if more.contains(t) {
                let k = choose|k: int| 0 <= k < more.len() && more[k] == t;
                if k < init.len() {
                    assert(init[k] == t);
                    assert(before.contains(t));
                }
            }
            if init.contains(t) {
                let k = choose|k: int| 0 <= k < init.len() && init[k] == t;
                assert(more[k] == t);
            }
            if before.contains(t) {
                let k = choose|k: int| 0 <= k < before.len() && before[k] == t;
                assert(after[k] == t);
            }
            if !before.contains(more.last()) {
                assert(after[before.len() as int] == more.last());
            }
            if after.contains(t) && !before.contains(t) {
                let k = choose|k: int| 0 <= k < after.len() && after[k] == t;
                assert(k == before.len());
            }
            assert(more[more.len() - 1] == more.last());
        }
    }
}

/// Parts that are joined stand in order with the separator between neighbours: the
/// first part, the separator, and the rest joined.
pub proof fn law_joined_parts_stand_in_order(
    first: Seq<char>,
    rest: Seq<Seq<char>>,
    sep: Seq<char>,
)
    ensures
        joined(Seq::empty(), sep) == Seq::<char>::empty(),
        joined(seq![first], sep) == first,
        rest.len() > 0 ==> joined(seq![first] + rest, sep) == first + sep + joined(rest, sep),
    decreases rest.len(),
{
    let all = seq![first] + rest;
    assert(joined(seq![first], sep) == first);
    if rest.len() == 1 {
        assert(all.drop_last() =~= seq![first]);
        assert(joined(all, sep) == joined(all.drop_last(), sep) + sep + all.last());
        assert(joined(rest, sep) == rest[0]);
        assert(all.last() == rest[0]);
        assert(joined(all, sep) =~= first + sep + joined(rest, sep));
    } else if rest.len() > 1 {
        law_joined_parts_stand_in_order(first, rest.drop_last(), sep);
        assert(all.drop_last() =~= seq![first] + rest.drop_last());
        assert(all.last() == rest.last());
        assert(joined(all, sep) =~= first + sep + joined(rest, sep));
    }
}

proof fn lemma_first_place_found(text: Seq<char>, c: char)
    ensures
        0 <= first_place(text, c) <= text.len(),
        forall|k: int| 0 <= k < first_place(text, c) ==> #[trigger] text[k] != c,
        first_place(text, c) < text.len() ==> text[first_place(text, c)] == c,
        text.contains(c) <==> first_place(text, c) < text.len(),
    decreases text.len(),
{
    if text.len() > 0 && text[0] != c {
        let rest = text.drop_first();
        lemma_first_place_found(rest, c);
        assert forall|k: int| 0 <= k < first_place(text, c) implies #[trigger] text[k] != c by {
            if k > 0 {
                assert(rest[k - 1] == text[k]);
            }
        }
        if text.contains(c) {
            let k = choose|k: int| 0 <= k < text.len() && text[k] == c;
            assert(rest[k - 1] == c);
        }
    }
    if first_place(text, c) < text.len() {
        assert(text[first_place(text, c)] == c);
    }
}

/// The first place of a character is where it stands with none before it.
pub proof fn law_first_places_are_first(text: Seq<char>, c: char)
    ensures
        0 <= first_place(text, c) <= text.len(),
        forall|k: int| 0 <= k < first_place(text, c) ==> #[trigger] text[k] != c,
        first_place(text, c) < text.len() ==> text[first_place(text, c)] == c,
{
    lemma_first_place_found(text, c);
}

/// The parts that a separator makes of a text hold it nowhere, and joined by it they
/// are the text again.
pub proof fn law_split_parts_join_again(text: Seq<char>, sep: char)
    ensures
        split_at_char(text, sep).len() > 0,
        joined(split_at_char(text, sep), seq![sep]) == text,
        forall|i: int|
            0 <= i < split_at_char(text, sep).len() ==> !(#[trigger] split_at_char(
                text,
                sep,
            )[i]).contains(sep),
    decreases text.len(),
{
    lemma_first_place_found(text, sep);
    let at = first_place(text, sep);
    let parts = split_at_char(text, sep);
    if text.contains(sep) {
        let head = text.take(at);
        let tail = text.skip(at + 1);
        law_split_parts_join_again(tail, sep);
        let rest = split_at_char(tail, sep);
        assert(parts =~= seq![head] + rest);
        law_joined_parts_stand_in_order(head, rest, seq![sep]);
        assert(head + seq![sep] + tail =~= text);
        assert forall|i: int| 0 <= i < parts.len() implies !(#[trigger] parts[i]).contains(
            sep,
        ) by {
            if i == 0 {
                if head.contains(sep) {
                    let k = choose|k: int| 0 <= k < head.len() && head[k] == sep;
                    assert(text[k] == sep);
                }
            } else {
                assert(parts[i] == rest[i - 1]);
            }
        }
    } else {
        assert(parts =~= seq![text]);
        law_joined_parts_stand_in_order(text, Seq::empty(), seq![sep]);
    }
}

proof fn lemma_trimmed_front(text: Seq<char>) -> (from: int)
    ensures
        0 <= from <= text.len(),
        trimmed_front(text) == text.skip(from),
        forall|k: int| 0 <= k < from ==> white(#[trigger] text[k]),
        from < text.len() ==> !white(text[from]),
    decreases text.len(),
{
    if text.len() > 0 && white(text[0]) {
        let rest = text.drop_first();
        let from = lemma_trimmed_front(rest);
        assert(rest.skip(from) =~= text.skip(from + 1));
        assert forall|k: int| 0 <= k < from + 1 implies white(#[trigger] text[k]) by {
            if k > 0 {
                assert(rest[k - 1] == text[k]);
            }
        }
        from + 1
    } else {
        assert(text.skip(0) =~= text);
        0
    }
}

proof fn lemma_trimmed_back(text: Seq<char>) -> (to: int)
    ensures
        0 <= to <= text.len(),
        trimmed_back(text) == text.take(to),
        forall|k: int| to <= k < text.len() ==> white(#[trigger] text[k]),
        to > 0 ==> !white(text[to - 1]),
    decreases text.len(),
{
    if text.len() > 0 && white(text.last()) {
        let init = text.drop_last();
        let to = lemma_trimmed_back(init);
        assert(init.take(to) =~= text.take(to));
        assert forall|k: int| to <= k < text.len() implies white(#[trigger] text[k]) by {
            if k < init.len() {
                assert(init[k] == text[k]);
            }
        }
        to
    } else {
        assert(text.take(text.len() as int) =~= text);
        text.len() as int
    }
}

/// A trimmed text is what is left between the white space at either end, and has
/// none at its own ends.
pub proof fn law_trimming_takes_white_space_off_the_ends(text: Seq<char>) -> (ends: (int, int))
    ensures
        0 <= ends.0 <= ends.1 <= text.len(),
        trimmed(text) == text.subrange(ends.0, ends.1),
        forall|k: int| 0 <= k < ends.0 ==> white(#[trigger] text[k]),
        forall|k: int| ends.1 <= k < text.len() ==> white(#[trigger] text[k]),
        trimmed(text).len() > 0 ==> !white(trimmed(text)[0]) && !white(trimmed(text).last()),
{
    let from = lemma_trimmed_front(text);
    let rest = text.skip(from);
    let to = lemma_trimmed_back(rest);
    assert(rest.take(to) =~= text.subrange(from, from + to));
    assert forall|k: int| from + to <= k < text.len() implies white(#[trigger] text[k]) by {
        assert(rest[k - from] == text[k]);
    }
    if to > 0 {
        assert(rest[0] == text[from]);
        assert(rest[to - 1] == text[from + to - 1]);
    }
    (from, from + to)
}

/// The number that decimal digits stand for.
pub open spec fn read_decimal(digits: Seq<char>) -> int
    decreases digits.len(),
{
    if digits.len() == 0 {
        0
    } else {
        10 * read_decimal(digits.drop_last()) + (digits.last() as u32 - 48)
    }
}

/// A number's decimal digits stand for it, so two numbers never look the same; and
/// filling up with zeros changes nothing about that.
pub proof fn law_decimals_stand_for_their_number(n: nat)
    ensures
        read_decimal(decimal(n)) == n,
        read_decimal(decimal3(n)) == n,
        decimal3(n).len() >= 3,
        decimal(n).len() >= 1,
        forall|i: int|
            0 <= i < decimal(n).len() ==> '0' <= (#[trigger] decimal(n)[i]) && decimal(n)[i]
                <= '9',
    decreases n,
{
    reveal_with_fuel(read_decimal, 4);
    let all = decimal(n);
    if n < 10 {
        lemma_digit(n);
        assert(all.drop_last() =~= Seq::empty());
        assert(all.last() == digit(n));
        let padded = decimal3(n);
        assert(padded =~= seq!['0', '0', digit(n)]);
        assert(padded.drop_last() =~= seq!['0', '0']);
        assert(padded.drop_last().drop_last() =~= seq!['0']);
        assert(padded.drop_last().drop_last().drop_last() =~= Seq::empty());
    } else {
        law_decimals_stand_for_their_number(n / 10);
        lemma_digit(n % 10);
        assert(all.drop_last() =~= decimal(n / 10));
        assert(all.last() == digit(n % 10));
        if n < 100 {
            lemma_digit(n / 10);
            assert(decimal(n / 10) =~= seq![digit(n / 10)]);
            let padded = decimal3(n);
            assert(padded =~= seq!['0', digit(n / 10), digit(n % 10)]);
            assert(padded.drop_last() =~= seq!['0', digit(n / 10)]);
            assert(padded.drop_last().drop_last() =~= seq!['0']);
            assert(padded.drop_last().drop_last().drop_last() =~= Seq::empty());
        } else {
            law_decimals_stand_for_their_number(n / 10);
            if n / 10 < 100 {
                assert(decimal(n / 10).len() >= 2) by {
                    assert(n / 10 >= 10);
                    assert(decimal(n / 10) =~= decimal(n / 10 / 10).push(digit(n / 10 % 10)));
                    law_decimals_stand_for_their_number(n / 10 / 10);
                }
            } else {
                assert(decimal3(n / 10) == decimal(n / 10));
            }
        }
    }
}

proof fn lemma_digit(n: nat)
    requires
        n < 10,
    ensures
        digit(n) as u32 == 48 + n,
        '0' <= digit(n) && digit(n) <= '9',
{
}

/// In dictionary order a text stands before another if it is the beginning of it, or
/// has the smaller character where they first differ.
pub proof fn law_dictionary_order_goes_by_the_first_difference(
    a: Seq<char>,
    b: Seq<char>,
    at: int,
)
    requires
        0 <= at <= a.len(),
        at <= b.len(),
        forall|k: int| 0 <= k < at ==> #[trigger] a[k] == b[k],
    ensures
        at == a.len() && at < b.len() ==> text_below(a, b),
        at == b.len() ==> !text_below(a, b),
        at < a.len() && at < b.len() && a[at] < b[at] ==> text_below(a, b),
        at < a.len() && at < b.len() && a[at] > b[at] ==> !text_below(a, b),
    decreases at,
{
    if at > 0 {
        assert(a[0] == b[0]);
        let c = a.drop_first();
        let d = b.drop_first();
        assert forall|k: int| 0 <= k < at - 1 implies #[trigger] c[k] == d[k] by {
            assert(a[k + 1] == b[k + 1]);
        }
        law_dictionary_order_goes_by_the_first_difference(c, d, at - 1);
    }
}

/// The tail of a text is its last characters, so many at most.
pub proof fn law_tails_keep_the_last_characters(text: Seq<char>, most: int, k: int)
    requires
        0 <= most,
    ensures
        tail_of(text, most).len() == vstd::math::min(text.len() as int, most),
        0 <= k < tail_of(text, most).len() ==> tail_of(text, most)[tail_of(text, most).len() - 1
            - k] == text[text.len() - 1 - k],
{
}

/// Texts that are noted one by one stand in the order in which they first came.
pub proof fn law_noted_texts_keep_their_order(more: Seq<Seq<char>>, marks: Seq<bool>)
    requires
        marks.len() == more.len(),
        forall|i: int| 0 <= i < marks.len() ==> (#[trigger] marks[i]
            <==> (forall|j: int| 0 <= j < i ==> (#[trigger] more[j]) != more[i])),
    ensures
        with_texts(Seq::empty(), more).len() == true_places(marks).len(),
        forall|k: int|
            0 <= k < true_places(marks).len() ==> (#[trigger] with_texts(Seq::empty(), more)[k])
                == more[true_places(marks)[k]],
    decreases more.len(),
{
    if more.len() > 0 {
        let init = more.drop_last();
        let some = marks.drop_last();
        let n = more.len() - 1;
        assert forall|i: int| 0 <= i < some.len() implies (#[trigger] some[i]
            <==> (forall|j: int| 0 <= j < i ==> (#[trigger] init[j]) != init[i])) by {
            assert(some[i] == marks[i]);
            assert(init[i] == more[i]);
            assert(forall|j: int| 0 <= j < i ==> #[trigger] init[j] == more[j]);
            assert(forall|j: int| 0 <= j < i ==> #[trigger] more[j] == init[j]);
        }
        law_noted_texts_keep_their_order(init, some);
        law_noted_texts_stand_once(Seq::empty(), init);
        assert(init.contains(more[n]) <==> exists|j: int| 0 <= j < n
            && #[trigger] more[j] == more[n]) by {
            if init.contains(more[n]) {
                let j = choose|j: int| 0 <= j < init.len() && init[j] == more[n];
                assert(more[j] == more[n]);
            }
            if exists|j: int| 0 <= j < n && #[trigger] more[j] == more[n] {
                let j = choose|j: int| 0 <= j < n && #[trigger] more[j] == more[n];
                assert(init[j] == more[n]);
            }
        }
        assert(marks[n] <==> (forall|j: int| 0 <= j < n ==> (#[trigger] more[j]) != more[n]));
        law_true_places_ascend(some);
        let before = with_texts(Seq::empty(), init);
        let after = with_texts(Seq::empty(), more);
        let was = true_places(some);
        let now = true_places(marks);
        assert forall|k: int| 0 <= k < now.len() implies (#[trigger] after[k]) == more[now[k]] by {
            if k < was.len() {
                assert(now[k] == was[k]);
                assert(0 <= was[k] < some.len());
                assert(init[was[k]] == more[was[k]]);
                assert(after[k] == before[k]);
            }
        }
    }
}

/// In dictionary order a list stands before another if it is the beginning of it, or
/// has the smaller text where they first differ.
pub proof fn law_list_order_goes_by_the_first_difference(
    a: Seq<Seq<char>>,
    b: Seq<Seq<char>>,
    at: int,
)
    requires
        0 <= at <= a.len(),
        at <= b.len(),
        forall|k: int| 0 <= k < at ==> #[trigger] a[k] == b[k],
    ensures
        at == a.len() && at < b.len() ==> list_below(a, b),
        at == b.len() ==> !list_below(a, b),
        at < a.len() && at < b.len() && a[at] != b[at] ==> (list_below(a, b) <==> text_below(
            a[at],
            b[at],
        )),
    decreases at,
{
    if at > 0 {
        assert(a[0] == b[0]);
        let c = a.drop_first();
        let d = b.drop_first();
        assert forall|k: int| 0 <= k < at - 1 implies #[trigger] c[k] == d[k] by {
            assert(a[k + 1] == b[k + 1]);
        }
        law_list_order_goes_by_the_first_difference(c, d, at - 1);
    }
}

} // verus!
