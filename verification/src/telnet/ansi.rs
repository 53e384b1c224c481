//! Removal of ANSI control sequences from the bytes that a server sends.

use vstd::prelude::*;

verus! {

/// The escape byte that starts every ANSI control sequence.
pub const ESC: u8 = 0x1b;

/// The bell byte that ends an operating system command.
pub const BEL: u8 = 0x07;

/// The byte that makes an escape the start of a control sequence.
pub const CSI_OPEN: u8 = 0x5b;

/// The byte that makes an escape the start of an operating system command.
pub const OSC_OPEN: u8 = 0x5d;

/// An ASCII letter, which ends a control sequence.
pub open spec fn is_letter(b: u8) -> bool {
    (0x41 <= b <= 0x5a) || (0x61 <= b <= 0x7a)
}

/// What follows the parameters and the final letter of a control sequence.
/// Nothing does if the letter is missing.
pub open spec fn after_csi(s: Seq<u8>) -> Seq<u8>
    decreases s.len(),
{
    if s.len() == 0 {
        s
    } else if is_letter(s[0]) {
        s.skip(1)
    } else {
        after_csi(s.skip(1))
    }
}

/// What follows the text of an operating system command: it ends with a bell, which belongs to
/// it, or before the next escape.
pub open spec fn after_osc(s: Seq<u8>) -> Seq<u8>
    decreases s.len(),
{
    if s.len() == 0 || s[0] == ESC {
        s
    } else if s[0] == BEL {
        s.skip(1)
    } else {
        after_osc(s.skip(1))
    }
}

/// What follows a sequence is no longer than the sequence with it.
pub proof fn lemma_after_len(s: Seq<u8>)
    ensures
        after_csi(s).len() <= s.len(),
        after_osc(s).len() <= s.len(),
    decreases s.len(),
{
    if s.len() > 0 {
        lemma_after_len(s.skip(1));
    }
}

/// The bytes of `s` that are not part of a control sequence, and whether `s` ends in an escape
/// that may start one.
pub open spec fn stripped(s: Seq<u8>) -> (Seq<u8>, bool)
    decreases s.len(),
{
    if s.len() == 0 {
        (Seq::empty(), false)
    } else if s[0] == ESC && s.len() == 1 {
        (Seq::empty(), true)
    } else if s[0] == ESC && s[1] == CSI_OPEN {
        proof {
            lemma_after_len(s.skip(2));
        }
        stripped(after_csi(s.skip(2)))
    } else if s[0] == ESC && s[1] == OSC_OPEN {
        proof {
            lemma_after_len(s.skip(2));
        }
        stripped(after_osc(s.skip(2)))
    } else {
        let rest = stripped(s.skip(1));
        (seq![s[0]] + rest.0, rest.1)
    }
}

/// The same for a chunk that follows another one, which ended in an escape if `pending`.
///
/// Only a `[` at the start of the chunk continues the escape; otherwise the escape is kept as
/// an ordinary byte.
pub open spec fn stripped_chunk(s: Seq<u8>, pending: bool) -> (Seq<u8>, bool) {
    if !pending {
        stripped(s)
    } else if s.len() > 0 && s[0] == CSI_OPEN {
        stripped(after_csi(s.skip(1)))
    } else {
        (seq![ESC] + stripped(s).0, stripped(s).1)
    }
}

/// Returns the index after the control sequence whose parameters start at `start`.
fn skip_csi(input: &[u8], start: usize) -> (end: usize)
    requires
        start <= input.len(),
    ensures
        start <= end <= input.len(),
        input@.skip(end as int) == after_csi(input@.skip(start as int)),
{
    let mut index: usize = start;
    while index < input.len() && !is_ascii_letter(input[index])
        invariant
            start <= index <= input.len(),
            after_csi(input@.skip(index as int)) == after_csi(input@.skip(start as int)),
        decreases input.len() - index,
    {
        assert(input@.skip(index as int).skip(1) =~= input@.skip(index + 1));
        index += 1;
    }
    if index < input.len() {
        assert(input@.skip(index as int).skip(1) =~= input@.skip(index + 1));
        index += 1;
    }
    index
}

/// Returns the index after the operating system command whose text starts at `start`.
fn skip_osc(input: &[u8], start: usize) -> (end: usize)
    requires
        start <= input.len(),
    ensures
        start <= end <= input.len(),
        input@.skip(end as int) == after_osc(input@.skip(start as int)),
{
    let mut index: usize = start;
    while index < input.len() && input[index] != BEL && input[index] != ESC
        invariant
            start <= index <= input.len(),
            after_osc(input@.skip(index as int)) == after_osc(input@.skip(start as int)),
        decreases input.len() - index,
    {
        assert(input@.skip(index as int).skip(1) =~= input@.skip(index + 1));
        index += 1;
    }
    if index < input.len() && input[index] == BEL {
        assert(input@.skip(index as int).skip(1) =~= input@.skip(index + 1));
        index += 1;
    }
    index
}

fn is_ascii_letter(b: u8) -> (r: bool)
    ensures
        r == is_letter(b),
        r <==> 65 <= b <= 90 || 97 <= b <= 122,
{
    (0x41 <= b && b <= 0x5a) || (0x61 <= b && b <= 0x7a)
}

/// Removes the ANSI control sequences from a chunk of output.
///
/// `pending` tells whether the chunk before ended in an escape, and is set to whether this one
/// does; such an escape is held back.
pub fn strip_ansi(input: &[u8], pending: &mut bool) -> (output: Vec<u8>)
    ensures
        (output@, *final(pending)) == stripped_chunk(input@, *old(pending)),
{
    let mut output: Vec<u8> = Vec::with_capacity(input.len());
    let mut index: usize = 0;
    let ghost goal = stripped_chunk(input@, *pending);

    assert(input@.skip(0) =~= input@);
    if *pending {
        if input.len() > 0 && input[0] == CSI_OPEN {
            index = skip_csi(input, 1);
        } else {
            output.push(ESC);
        }
        *pending = false;
    }

    while index < input.len()
        invariant
            index <= input.len(),
            !*pending,
            goal == stripped_chunk(input@, *old(pending)),
            goal.0 =~= output@ + stripped(input@.skip(index as int)).0,
            goal.1 == stripped(input@.skip(index as int)).1,
        decreases input.len() - index,
    {
        let ghost rest = input@.skip(index as int);
        assert(rest.skip(1) =~= input@.skip(index + 1));
        if input[index] == ESC {
            if index + 1 >= input.len() {
                *pending = true;
                return output;
            }
            assert(rest.skip(2) =~= input@.skip(index + 2));
            if input[index + 1] == CSI_OPEN {
                index = skip_csi(input, index + 2);
                continue;
            }
            if input[index + 1] == OSC_OPEN {
                index = skip_osc(input, index + 2);
                continue;
            }
        }
        output.push(input[index]);
        index += 1;
    }

    output
}

/// Where the end of a text stands.
pub enum Mode {
    /// Outside any control sequence.
    Text,
    /// After an escape that ends the text.
    Escape,
    /// Among the parameters of a control sequence.
    Csi,
    /// In the text of an operating system command.
    Osc,
}

/// True when the control sequence with these parameters reaches its letter.
pub open spec fn csi_ends(s: Seq<u8>) -> bool
    decreases s.len(),
{
    s.len() > 0 && (is_letter(s[0]) || csi_ends(s.skip(1)))
}

/// True when the operating system command with this text reaches a bell or an escape.
pub open spec fn osc_ends(s: Seq<u8>) -> bool
    decreases s.len(),
{
    s.len() > 0 && (s[0] == BEL || s[0] == ESC || osc_ends(s.skip(1)))
}

/// Where the end of `s` stands.
pub open spec fn mode_after(s: Seq<u8>) -> Mode
    decreases s.len(),
{
    if s.len() == 0 {
        Mode::Text
    } else if s[0] == ESC && s.len() == 1 {
        Mode::Escape
    } else if s[0] == ESC && s[1] == CSI_OPEN {
        proof {
            lemma_after_len(s.skip(2));
        }
        if csi_ends(s.skip(2)) {
            mode_after(after_csi(s.skip(2)))
        } else {
            Mode::Csi
        }
    } else if s[0] == ESC && s[1] == OSC_OPEN {
        proof {
            lemma_after_len(s.skip(2));
        }
        if osc_ends(s.skip(2)) {
            mode_after(after_osc(s.skip(2)))
        } else {
            Mode::Osc
        }
    } else {
        mode_after(s.skip(1))
    }
}

/// Where the end of a chunk stands, `pending` being whether the chunk before ended in an escape.
pub open spec fn mode_after_chunk(s: Seq<u8>, pending: bool) -> Mode {
    if pending && s.len() > 0 && s[0] == CSI_OPEN {
        if csi_ends(s.skip(1)) {
            mode_after(after_csi(s.skip(1)))
        } else {
            Mode::Csi
        }
    } else {
        mode_after(s)
    }
}

/// What `s` shows when it is read on in a mode.
pub open spec fn resumed(mode: Mode, s: Seq<u8>) -> (Seq<u8>, bool) {
    match mode {
        Mode::Text => stripped(s),
        Mode::Escape => stripped(seq![ESC] + s),
        Mode::Csi => stripped(after_csi(s)),
        Mode::Osc => stripped(after_osc(s)),
    }
}

proof fn lemma_after_append(a: Seq<u8>, b: Seq<u8>)
    ensures
        csi_ends(a) ==> after_csi(a + b) == after_csi(a) + b,
        !csi_ends(a) ==> after_csi(a) == Seq::<u8>::empty() && after_csi(a + b) == after_csi(b),
        osc_ends(a) ==> after_osc(a + b) == after_osc(a) + b,
        !osc_ends(a) ==> after_osc(a) == Seq::<u8>::empty() && after_osc(a + b) == after_osc(b),
    decreases a.len(),
{
    if a.len() == 0 {
        assert(a + b =~= b);
        assert(a =~= Seq::<u8>::empty());
    } else {
        lemma_after_append(a.skip(1), b);
        assert((a + b).skip(1) =~= a.skip(1) + b);
        assert((a + b)[0] == a[0]);
        assert(after_osc(a) == a ==> a + b == after_osc(a) + b);
    }
}

/// Reading a text in two parts shows what the first part shows and then what the second shows
/// when it is read on from where the first one ended.
pub proof fn law_stripping_resumes(a: Seq<u8>, b: Seq<u8>)
    ensures
        stripped(a + b).0 == stripped(a).0 + resumed(mode_after(a), b).0,
        stripped(a + b).1 == resumed(mode_after(a), b).1,
    decreases a.len(),
{
    let ab = a + b;
    assert(stripped(Seq::<u8>::empty()).0 =~= Seq::<u8>::empty());
    assert(ab.len() > 0 && a.len() > 0 ==> ab[0] == a[0]);
    assert(a.len() > 1 ==> ab[1] == a[1]);
    if a.len() == 0 {
        assert(ab =~= b);
        assert(Seq::<u8>::empty() + resumed(Mode::Text, b).0 =~= resumed(Mode::Text, b).0);
    } else if a[0] == ESC && a.len() == 1 {
        assert(a =~= seq![ESC]);
        assert(Seq::<u8>::empty() + resumed(Mode::Escape, b).0 =~= resumed(Mode::Escape, b).0);
    } else if a[0] == ESC && a[1] == CSI_OPEN {
        let t = a.skip(2);
        assert(ab.skip(2) =~= t + b);
        lemma_after_append(t, b);
        lemma_after_len(t);
        if csi_ends(t) {
            law_stripping_resumes(after_csi(t), b);
        } else {
            assert(Seq::<u8>::empty() + resumed(Mode::Csi, b).0 =~= resumed(Mode::Csi, b).0);
        }
    } else if a[0] == ESC && a[1] == OSC_OPEN {
        let t = a.skip(2);
        assert(ab.skip(2) =~= t + b);
        lemma_after_append(t, b);
        lemma_after_len(t);
        if osc_ends(t) {
            law_stripping_resumes(after_osc(t), b);
        } else {
            assert(Seq::<u8>::empty() + resumed(Mode::Osc, b).0 =~= resumed(Mode::Osc, b).0);
        }
    } else {
        assert(ab.skip(1) =~= a.skip(1) + b);
        law_stripping_resumes(a.skip(1), b);
        let rest = resumed(mode_after(a.skip(1)), b).0;
        assert(seq![a[0]] + (stripped(a.skip(1)).0 + rest) =~= (seq![a[0]] + stripped(a.skip(1)).0)
            + rest);
    }
}

/// Stripping two chunks one after the other shows what stripping them at once shows exactly
/// when the second chunk, on its own, shows what it shows when read on from the end of the
/// first. That is so when the first chunk ends outside any control sequence, and when it ends
/// in an escape that a byte other than `]` follows.
///
/// An empty chunk between an escape and its `[` releases the escape.
pub proof fn law_chunks_join(a: Seq<u8>, b: Seq<u8>, pending: bool)
    requires
        pending && a.len() == 0 && b.len() > 0 ==> b[0] != CSI_OPEN,
    ensures
        ({
            let first = stripped_chunk(a, pending);
            let second = stripped_chunk(b, first.1);
            let joined = (first.0 + second.0, second.1);
            let mode = mode_after_chunk(a, pending);
            &&& stripped_chunk(a + b, pending) == joined <==> resumed(mode, b) == second
            &&& mode is Text ==> stripped_chunk(a + b, pending) == joined
            &&& mode is Escape && b.len() > 0 && b[0] != OSC_OPEN ==> stripped_chunk(
                a + b,
                pending,
            ) == joined
        }),
{
    let first = stripped_chunk(a, pending);
    let second = stripped_chunk(b, first.1);
    let mode = mode_after_chunk(a, pending);
    let read_on = resumed(mode, b);
    lemma_mode_ends(a);
    if pending && a.len() > 0 && a[0] == CSI_OPEN {
        let t = a.skip(1);
        assert((a + b).skip(1) =~= t + b);
        lemma_after_append(t, b);
        lemma_mode_ends(after_csi(t));
        if csi_ends(t) {
            law_stripping_resumes(after_csi(t), b);
        }
    } else {
        law_stripping_resumes(a, b);
        if a.len() == 0 {
            assert(a + b =~= b);
        }
        assert((a + b).len() > 0 && a.len() > 0 ==> (a + b)[0] == a[0]);
        assert(seq![ESC] + (stripped(a).0 + read_on.0) =~= (seq![ESC] + stripped(a).0) + read_on.0);
    }
    assert(stripped_chunk(a + b, pending).0 =~= first.0 + read_on.0);
    assert(stripped_chunk(a + b, pending).1 == read_on.1);
    assert(first.0 + read_on.0 == first.0 + second.0 ==> read_on.0 =~= second.0) by {
        let n = first.0.len() as int;
        assert((first.0 + read_on.0).skip(n) =~= read_on.0);
        assert((first.0 + second.0).skip(n) =~= second.0);
    }
    if mode is Escape && b.len() > 0 {
        assert((seq![ESC] + b).skip(1) =~= b);
        assert((seq![ESC] + b).skip(2) =~= b.skip(1));
    }
}

/// A text ends in an escape exactly when that escape is held back.
proof fn lemma_mode_ends(s: Seq<u8>)
    ensures
        stripped(s).1 == (mode_after(s) is Escape),
    decreases s.len(),
{
    if s.len() > 0 {
        if s.len() > 1 {
            lemma_after_len(s.skip(2));
            lemma_after_append(s.skip(2), Seq::empty());
            lemma_mode_ends(after_csi(s.skip(2)));
            lemma_mode_ends(after_osc(s.skip(2)));
        }
        lemma_mode_ends(s.skip(1));
    }
}

/// A text without an escape is shown unchanged.
pub proof fn law_plain_text_is_kept(s: Seq<u8>)
    requires
        !s.contains(ESC),
    ensures
        stripped_chunk(s, false) == (s, false),
    decreases s.len(),
{
    if s.len() > 0 {
        assert(s[0] != ESC);
        assert(forall|i: int| 0 <= i < s.skip(1).len() ==> s.skip(1)[i] == s[i + 1]);
        law_plain_text_is_kept(s.skip(1));
        assert(seq![s[0]] + s.skip(1) =~= s);
    } else {
        assert(s =~= Seq::<u8>::empty());
    }
}

} // verus!
