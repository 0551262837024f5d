//! The record of the table: its fixed-width binary form and the parser of
//! its textual form.
use crate::codec::{
    copy_into, lemma_u32_le_round_trip, read_u32_le, u32_from_le, u32_to_le, write_u32_le,
    zero_range, zeros,
};
use vstd::prelude::*;
use vstd::slice::*;
use vstd::string::*;

verus! {

pub const ID_SIZE: usize = 4;
pub const USERNAME_SIZE: usize = 32;
pub const EMAIL_SIZE: usize = 255;
pub const ID_OFFSET: usize = 0;
pub const USERNAME_OFFSET: usize = ID_OFFSET + ID_SIZE;
pub const EMAIL_OFFSET: usize = USERNAME_OFFSET + USERNAME_SIZE;
pub const ROW_SIZE: usize = ID_SIZE + USERNAME_SIZE + EMAIL_SIZE;

/// Why a line of text is not an insert statement.
#[derive(Debug, Clone, Copy, PartialEq, Eq)]
pub enum SyntaxErr {
    StringTooLong,
    WrongArgsNum,
    InvalidID,
}

/// What a row is: its key and the bytes of its two texts.
pub struct RowView {
    pub id: u32,
    pub username: Seq<u8>,
    pub email: Seq<u8>,
}

impl RowView {
    /// Both texts fit their fields.
    pub open spec fn wf(self) -> bool {
        &&& self.username.len() <= USERNAME_SIZE
        &&& self.email.len() <= EMAIL_SIZE
    }

    /// Neither text ends in a zero byte, which the fixed-width form could
    /// not tell from padding.
    pub open spec fn unpadded(self) -> bool {
        &&& text_len(self.username) == self.username.len()
        &&& text_len(self.email) == self.email.len()
    }
}

/// `s` followed by zero bytes up to `width`.
pub open spec fn padded(s: Seq<u8>, width: nat) -> Seq<u8>
    recommends
        s.len() <= width,
{
    s + zeros((width - s.len()) as nat)
}

/// The length of `s` without the zero bytes at its end.
pub open spec fn text_len(s: Seq<u8>) -> nat
    decreases s.len(),
{
    if s.len() > 0 && s.last() == 0 {
        text_len(s.drop_last())
    } else {
        s.len()
    }
}

/// `s` without the zero bytes at its end.
pub open spec fn trimmed(s: Seq<u8>) -> Seq<u8> {
    s.subrange(0, text_len(s) as int)
}

/// The fixed-width form of a row: the key little-endian, then each text in
/// its field, padded with zero bytes.
pub open spec fn row_bytes(v: RowView) -> Seq<u8>
    recommends
        v.wf(),
{
    u32_to_le(v.id) + padded(v.username, USERNAME_SIZE as nat) + padded(v.email, EMAIL_SIZE as nat)
}

/// The row that a fixed-width form holds: each text is its field without
/// the zero bytes at the field's end.
pub open spec fn row_of_bytes(b: Seq<u8>) -> RowView
    recommends
        b.len() == ROW_SIZE,
{
    RowView {
        id: u32_from_le(b.subrange(ID_OFFSET as int, USERNAME_OFFSET as int)),
        username: trimmed(b.subrange(USERNAME_OFFSET as int, EMAIL_OFFSET as int)),
        email: trimmed(b.subrange(EMAIL_OFFSET as int, ROW_SIZE as int)),
    }
}

/// The text of a field ends before the zero bytes at the field's end, and
/// not in a zero byte.
pub proof fn lemma_text_len_bound(s: Seq<u8>)
    ensures
        text_len(s) <= s.len(),
        text_len(s) > 0 ==> s[text_len(s) - 1] != 0,
        forall|i: int| text_len(s) <= i < s.len() ==> #[trigger] s[i] == 0,
    decreases s.len(),
{
    if s.len() > 0 && s.last() == 0 {
        let t = s.drop_last();
        lemma_text_len_bound(t);
        assert forall|i: int| text_len(s) <= i < s.len() implies #[trigger] s[i] == 0 by {
            if i < t.len() {
                assert(t[i] == 0);
            }
        }
    }
}

/// Padding adds nothing to the text: its length is that of the text alone.
pub proof fn lemma_text_len_padded(s: Seq<u8>, width: nat)
    requires
        s.len() <= width,
    ensures
        text_len(padded(s, width)) == text_len(s),
    decreases width - s.len(),
{
    let p = padded(s, width);
    if s.len() < width {
        assert(p.last() == 0);
        assert(p.drop_last() =~= padded(s, (width - 1) as nat));
        lemma_text_len_padded(s, (width - 1) as nat);
    } else {
        assert(p =~= s);
    }
}

/// The fixed-width form of a row has the width of a row.
pub proof fn lemma_row_bytes_len(v: RowView)
    requires
        v.wf(),
    ensures
        row_bytes(v).len() == ROW_SIZE,
{
}

/// Round trip: a row whose texts fit their fields and do not end in a zero
/// byte is what its fixed-width form holds.
pub proof fn lemma_row_round_trip(v: RowView)
    requires
        v.wf(),
        v.unpadded(),
    ensures
        row_bytes(v).len() == ROW_SIZE,
        row_of_bytes(row_bytes(v)) == v,
{
    let b = row_bytes(v);
    lemma_u32_le_round_trip(v.id);
    assert(b.subrange(ID_OFFSET as int, USERNAME_OFFSET as int) =~= u32_to_le(v.id));
    let name = b.subrange(USERNAME_OFFSET as int, EMAIL_OFFSET as int);
    assert(name =~= padded(v.username, USERNAME_SIZE as nat));
    lemma_text_len_padded(v.username, USERNAME_SIZE as nat);
    assert(trimmed(name) =~= v.username);
    let mail = b.subrange(EMAIL_OFFSET as int, ROW_SIZE as int);
    assert(mail =~= padded(v.email, EMAIL_SIZE as nat));
    lemma_text_len_padded(v.email, EMAIL_SIZE as nat);
    assert(trimmed(mail) =~= v.email);
}

/// A fixed-width form holds a row whose texts fit their fields and do not
/// end in a zero byte.
pub proof fn lemma_row_of_bytes_wf(b: Seq<u8>)
    requires
        b.len() == ROW_SIZE,
    ensures
        row_of_bytes(b).wf(),
        row_of_bytes(b).unpadded(),
{
    let name = b.subrange(USERNAME_OFFSET as int, EMAIL_OFFSET as int);
    let mail = b.subrange(EMAIL_OFFSET as int, ROW_SIZE as int);
    lemma_text_len_bound(name);
    lemma_text_len_bound(mail);
    lemma_text_len_trimmed(name);
    lemma_text_len_trimmed(mail);
}

/// Trimming twice is trimming once.
pub proof fn lemma_text_len_trimmed(s: Seq<u8>)
    ensures
        text_len(trimmed(s)) == text_len(s),
{
    lemma_text_len_bound(s);
    let t = trimmed(s);
    if t.len() > 0 {
        assert(t.last() == s[text_len(s) - 1]);
    }
}

/// One record: `id` is the sort key, `username` and `email` are kept as the
/// bytes of their text.
#[derive(Debug, PartialEq, Eq)]
pub struct Row {
    id: u32,
    username: Vec<u8>,
    email: Vec<u8>,
}

impl Row {
    /// Holds of every row: its texts fit their fields.
    #[verifier::type_invariant]
    pub open spec fn fits(self) -> bool {
        self@.wf()
    }
}

impl View for Row {
    type V = RowView;

    closed spec fn view(&self) -> RowView {
        RowView { id: self.id, username: self.username@, email: self.email@ }
    }
}

/// ASCII white space: space, tab, line feed, form feed, carriage return.
pub open spec fn is_space(b: u8) -> bool {
    b == 0x20 || b == 0x09 || b == 0x0a || b == 0x0c || b == 0x0d
}

/// The first position at or after `from` that holds no white space.
pub open spec fn skip_spaces(s: Seq<u8>, from: int) -> int
    decreases s.len() - from,
{
    if 0 <= from < s.len() && is_space(s[from]) {
        skip_spaces(s, from + 1)
    } else {
        from
    }
}

/// The first position at or after `from` that holds white space.
pub open spec fn skip_word(s: Seq<u8>, from: int) -> int
    decreases s.len() - from,
{
    if 0 <= from < s.len() && !is_space(s[from]) {
        skip_word(s, from + 1)
    } else {
        from
    }
}

/// A word ends at white space or at the end of the text, and holds none.
pub proof fn lemma_skip_word(s: Seq<u8>, from: int)
    requires
        0 <= from <= s.len(),
    ensures
        from <= skip_word(s, from) <= s.len(),
        from < s.len() && !is_space(s[from]) ==> from < skip_word(s, from),
        skip_word(s, from) < s.len() ==> is_space(s[skip_word(s, from)]),
        forall|i: int| from <= i < skip_word(s, from) ==> !is_space(#[trigger] s[i]),
    decreases s.len() - from,
{
    if from < s.len() && !is_space(s[from]) {
        lemma_skip_word(s, from + 1);
    }
}

/// The words of `s` from `from` on: the maximal runs of bytes that are not
/// white space, in their order.
pub open spec fn words(s: Seq<u8>, from: int) -> Seq<Seq<u8>>
    decreases s.len() - from,
{
    let start = skip_spaces(s, from);
    let end = skip_word(s, start);
    if 0 <= from <= start < end <= s.len() {
        seq![s.subrange(start, end)] + words(s, end)
    } else {
        Seq::empty()
    }
}

/// Finds the next word of `text` at or after `from`: where it starts and
/// where it ends, or `None` where only white space is left.
pub fn next_word(text: &[u8], from: usize) -> (r: Option<(usize, usize)>)
    requires
        from <= text.len(),
    ensures
        match r {
            Some((start, end)) => {
                &&& start == skip_spaces(text@, from as int)
                &&& end == skip_word(text@, start as int)
                &&& from <= start < end <= text.len()
                &&& words(text@, from as int) == seq![text@.subrange(start as int, end as int)]
                    + words(text@, end as int)
            },
            None => words(text@, from as int) == Seq::<Seq<u8>>::empty(),
        },
{
    let len: usize = text.len();
    let mut start: usize = from;
    while start < len && is_space_byte(text[start])
        invariant
            len == text.len(),
            from <= start <= len,
            skip_spaces(text@, from as int) == skip_spaces(text@, start as int),
        decreases len - start,
    {
        start += 1;
    }
    proof {
        lemma_skip_word(text@, start as int);
    }
    if start >= len {
        return None;
    }
    let mut end: usize = start + 1;
    while end < len && !is_space_byte(text[end])
        invariant
            len == text.len(),
            start < end <= len,
            !is_space(text@[start as int]),
            skip_word(text@, start as int) == skip_word(text@, end as int),
        decreases len - end,
    {
        end += 1;
    }
    Some((start, end))
}

/// Whether `b` is ASCII white space.
pub fn is_space_byte(b: u8) -> (r: bool)
    ensures
        r == is_space(b),
{
    b == 0x20 || b == 0x09 || b == 0x0a || b == 0x0c || b == 0x0d
}

/// An ASCII decimal digit.
pub open spec fn is_digit(b: u8) -> bool {
    0x30 <= b <= 0x39
}

/// The number that a digit stands for; 0 for any other byte.
pub open spec fn digit_value(b: u8) -> nat {
    if is_digit(b) {
        (b - 0x30) as nat
    } else {
        0
    }
}

/// Every byte of `s` is a decimal digit.
pub open spec fn all_digits(s: Seq<u8>) -> bool {
    forall|i: int| 0 <= i < s.len() ==> is_digit(#[trigger] s[i])
}

/// The number written by the digits of `s`, most significant first.
pub open spec fn decimal(s: Seq<u8>) -> nat
    decreases s.len(),
{
    if s.len() == 0 {
        0
    } else {
        decimal(s.drop_last()) * 10 + digit_value(s.last())
    }
}

/// The key that a word writes: an optional `+`, then one or more decimal
/// digits whose number fits in 32 bits. `None` for any other word.
pub open spec fn parse_id(word: Seq<u8>) -> Option<u32> {
    if word.len() > 0 && word[0] == 0x2b {
        parse_digits(word.subrange(1, word.len() as int))
    } else {
        parse_digits(word)
    }
}

/// The number that one or more decimal digits write, where it fits in 32
/// bits.
pub open spec fn parse_digits(digits: Seq<u8>) -> Option<u32> {
    if digits.len() > 0 && all_digits(digits) && decimal(digits) <= u32::MAX {
        Some(decimal(digits) as u32)
    } else {
        None
    }
}

/// A number never gets smaller when more digits follow.
pub proof fn lemma_decimal_grows(s: Seq<u8>, n: int)
    requires
        0 <= n <= s.len(),
    ensures
        decimal(s.subrange(0, n)) <= decimal(s),
    decreases s.len() - n,
{
    if n == s.len() {
        assert(s.subrange(0, n) =~= s);
    } else {
        lemma_decimal_grows(s, n + 1);
        assert(s.subrange(0, n + 1).drop_last() =~= s.subrange(0, n));
    }
}

/// Reads a key from one word.
pub fn read_id(word: &[u8]) -> (r: Option<u32>)
    ensures
        r == parse_id(word@),
{
    let len: usize = word.len();
    let first: usize = if len > 0 && word[0] == 0x2b { 1 } else { 0 };
    let ghost digits = word@.subrange(first as int, len as int);
    proof {
        if first == 0 {
            assert(digits =~= word@);
        }
    }
    if first >= len {
        return None;
    }
    let mut value: u32 = 0;
    let mut i: usize = first;
    while i < len
        invariant
            len == word.len(),
            first <= i <= len,
            digits == word@.subrange(first as int, len as int),
            parse_id(word@) == parse_digits(digits),
            all_digits(digits.subrange(0, i - first)),
            value == decimal(digits.subrange(0, i - first)),
        decreases len - i,
    {
        let b: u8 = word[i];
        let ghost before = digits.subrange(0, i - first);
        let ghost after = digits.subrange(0, i + 1 - first);
        proof {
            assert(after.drop_last() =~= before);
            assert(after.last() == b);
            lemma_decimal_grows(digits, i + 1 - first);
        }
        if b < 0x30 || b > 0x39 {
            assert(!is_digit(digits[i - first]));
            return None;
        }
        let d: u32 = (b - 0x30) as u32;
        if value > (u32::MAX - d) / 10 {
            assert(decimal(after) > u32::MAX);
            return None;
        }
        value = value * 10 + d;
        i += 1;
        assert forall|j: int| 0 <= j < after.len() implies is_digit(#[trigger] after[j]) by {
            if j < before.len() {
                assert(after[j] == before[j]);
            }
        }
    }
    assert(digits.subrange(0, len - first) =~= digits);
    Some(value)
}

/// The decimal digits that write `n`, most significant first, with no zero
/// in front.
pub open spec fn decimal_digits(n: nat) -> Seq<u8>
    decreases n,
{
    if n < 10 {
        seq![(0x30 + n) as u8]
    } else {
        decimal_digits(n / 10).push((0x30 + n % 10) as u8)
    }
}

/// The digits that write a number are digits, and they write that number.
pub proof fn lemma_decimal_digits(n: nat)
    ensures
        decimal_digits(n).len() > 0,
        all_digits(decimal_digits(n)),
        decimal(decimal_digits(n)) == n,
    decreases n,
{
    if n >= 10 {
        lemma_decimal_digits(n / 10);
        let front = decimal_digits(n / 10);
        let digits = decimal_digits(n);
        assert(digits.drop_last() =~= front);
        assert forall|i: int| 0 <= i < digits.len() implies is_digit(#[trigger] digits[i]) by {
            if i < front.len() {
                assert(digits[i] == front[i]);
            }
        }
        assert(digit_value(digits.last()) == n % 10);
        assert(decimal(digits) == decimal(front) * 10 + n % 10);
    } else {
        let digits = decimal_digits(n);
        assert(digits.drop_last() =~= Seq::<u8>::empty());
        assert(decimal(digits.drop_last()) == 0);
        assert(digit_value(digits.last()) == n);
    }
}

/// A key that is written in decimal digits is read back as it was.
pub proof fn lemma_id_round_trip(id: u32)
    ensures
        parse_id(decimal_digits(id as nat)) == Some(id),
{
    lemma_decimal_digits(id as nat);
}

/// Appends the decimal digits of `n` to `out`.
pub fn push_decimal(out: &mut Vec<u8>, n: u32)
    ensures
        final(out)@ == old(out)@ + decimal_digits(n as nat),
    decreases n,
{
    if n >= 10 {
        push_decimal(out, n / 10);
    }
    out.push(0x30 + (n % 10) as u8);
    assert(out@ =~= old(out)@ + decimal_digits(n as nat));
}

/// Appends the bytes of `text` to `out`.
pub fn push_bytes(out: &mut Vec<u8>, text: &[u8])
    ensures
        final(out)@ == old(out)@ + text@,
{
    let mut i: usize = 0;
    assert(out@ =~= old(out)@ + text@.subrange(0, 0));
    while i < text.len()
        invariant
            i <= text.len(),
            out@ == old(out)@ + text@.subrange(0, i as int),
        decreases text.len() - i,
    {
        out.push(text[i]);
        i += 1;
        assert(out@ =~= old(out)@ + text@.subrange(0, i as int));
    }
    assert(text@.subrange(0, text.len() as int) =~= text@);
}

/// The line that shows a row: `(id, username, email)`, the key in decimal
/// digits and each text as its bytes.
pub open spec fn row_line(v: RowView) -> Seq<u8> {
    seq![0x28u8] + decimal_digits(v.id as nat) + seq![0x2cu8, 0x20u8] + v.username + seq![
        0x2cu8,
        0x20u8,
    ] + v.email + seq![0x29u8]
}

/// What a line of text says as an insert statement. The first word is the
/// keyword and is not looked at; the next three are the key, the user name
/// and the e-mail address; further words are ignored. The fields are checked
/// in that order, each for presence before its content.
pub open spec fn parse_row(text: Seq<u8>) -> Result<RowView, SyntaxErr> {
    let w = words(text, 0);
    if w.len() < 2 {
        Err(SyntaxErr::WrongArgsNum)
    } else if parse_id(w[1]) is None {
        Err(SyntaxErr::InvalidID)
    } else if w.len() < 3 {
        Err(SyntaxErr::WrongArgsNum)
    } else if w[2].len() > USERNAME_SIZE {
        Err(SyntaxErr::StringTooLong)
    } else if w.len() < 4 {
        Err(SyntaxErr::WrongArgsNum)
    } else if w[3].len() > EMAIL_SIZE {
        Err(SyntaxErr::StringTooLong)
    } else {
        Ok(RowView { id: parse_id(w[1])->0, username: w[2], email: w[3] })
    }
}

/// The length of the text in `field`: its length without the zero bytes at
/// its end.
pub fn field_text_len(field: &[u8]) -> (n: usize)
    ensures
        n == text_len(field@),
        n <= field.len(),
{
    let mut n: usize = field.len();
    assert(field@.subrange(0, n as int) =~= field@);
    while n > 0 && field[n - 1] == 0
        invariant
            n <= field.len(),
            text_len(field@) == text_len(field@.subrange(0, n as int)),
        decreases n,
    {
        assert(field@.subrange(0, n as int).drop_last() =~= field@.subrange(0, n - 1));
        n -= 1;
    }
    n
}

impl Row {
    /// The sort key.
    pub fn id(&self) -> (id: u32)
        ensures
            id == self@.id,
    {
        self.id
    }

    /// The bytes of the user name.
    pub fn username(&self) -> (name: &[u8])
        ensures
            name@ == self@.username,
    {
        self.username.as_slice()
    }

    /// The bytes of the e-mail address.
    pub fn email(&self) -> (mail: &[u8])
        ensures
            mail@ == self@.email,
    {
        self.email.as_slice()
    }

    /// The line that shows the row: `(id, username, email)`.
    pub fn line(&self) -> (line: Vec<u8>)
        ensures
            line@ == row_line(self@),
    {
        let mut line: Vec<u8> = Vec::new();
        line.push(0x28);
        push_decimal(&mut line, self.id);
        line.push(0x2c);
        line.push(0x20);
        push_bytes(&mut line, self.username.as_slice());
        line.push(0x2c);
        line.push(0x20);
        push_bytes(&mut line, self.email.as_slice());
        line.push(0x29);
        assert(line@ =~= row_line(self@));
        line
    }

    /// Writes the fixed-width form of the row into `slot`.
    pub fn serialize(&self, slot: &mut [u8])
        requires
            old(slot).len() == ROW_SIZE,
        ensures
            final(slot)@ == row_bytes(self@),
    {
        proof {
            use_type_invariant(self);
        }
        let name_len: usize = self.username.len();
        let mail_len: usize = self.email.len();
        write_u32_le(slot, ID_OFFSET, self.id);
        copy_into(slot, USERNAME_OFFSET, self.username.as_slice());
        zero_range(slot, USERNAME_OFFSET + name_len, EMAIL_OFFSET);
        copy_into(slot, EMAIL_OFFSET, self.email.as_slice());
        zero_range(slot, EMAIL_OFFSET + mail_len, ROW_SIZE);
        assert(slot@ =~= row_bytes(self@));
    }

    /// Reads a row back from its fixed-width form.
    pub fn deserialize(slot: &mut [u8]) -> (row: Row)
        requires
            old(slot).len() == ROW_SIZE,
        ensures
            row@ == row_of_bytes(old(slot)@),
            final(slot)@ == old(slot)@,
    {
        let id: u32 = read_u32_le(slot, ID_OFFSET);
        let name_field: &[u8] = slice_subrange(slot, USERNAME_OFFSET, EMAIL_OFFSET);
        let name_len: usize = field_text_len(name_field);
        let username: Vec<u8> = slice_to_vec(slice_subrange(name_field, 0, name_len));
        let mail_field: &[u8] = slice_subrange(slot, EMAIL_OFFSET, ROW_SIZE);
        let mail_len: usize = field_text_len(mail_field);
        let email: Vec<u8> = slice_to_vec(slice_subrange(mail_field, 0, mail_len));
        proof {
            lemma_row_of_bytes_wf(slot@);
        }
        Row { id, username, email }
    }

    /// Builds a row from the text `insert <id> <username> <email>`.
    pub fn new(input: &str) -> (r: Result<Row, SyntaxErr>)
        ensures
            match r {
                Ok(row) => parse_row(input.spec_bytes()) == Ok::<RowView, SyntaxErr>(row@),
                Err(e) => parse_row(input.spec_bytes()) == Err::<RowView, SyntaxErr>(e),
            },
    {
        let text: &[u8] = input.as_bytes();
        let ghost w = words(text@, 0);
        let after_keyword: usize = match next_word(text, 0) {
            Some((_, end)) => end,
            None => { return Err(SyntaxErr::WrongArgsNum); },
        };
        let (id_start, id_end) = match next_word(text, after_keyword) {
            Some(span) => span,
            None => { return Err(SyntaxErr::WrongArgsNum); },
        };
        assert(w[1] == text@.subrange(id_start as int, id_end as int));
        let id: u32 = match read_id(slice_subrange(text, id_start, id_end)) {
            Some(value) => value,
            None => { return Err(SyntaxErr::InvalidID); },
        };
        let (name_start, name_end) = match next_word(text, id_end) {
            Some(span) => span,
            None => { return Err(SyntaxErr::WrongArgsNum); },
        };
        assert(w[2] == text@.subrange(name_start as int, name_end as int));
        if name_end - name_start > USERNAME_SIZE {
            return Err(SyntaxErr::StringTooLong);
        }
        let username: Vec<u8> = slice_to_vec(slice_subrange(text, name_start, name_end));
        let (mail_start, mail_end) = match next_word(text, name_end) {
            Some(span) => span,
            None => { return Err(SyntaxErr::WrongArgsNum); },
        };
        assert(w[3] == text@.subrange(mail_start as int, mail_end as int));
        if mail_end - mail_start > EMAIL_SIZE {
            return Err(SyntaxErr::StringTooLong);
        }
        let email: Vec<u8> = slice_to_vec(slice_subrange(text, mail_start, mail_end));
        Ok(Row { id, username, email })
    }
}

} // verus!
