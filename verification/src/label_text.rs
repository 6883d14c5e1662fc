//! The labels as one text, one label per line, as the storage keeps them.

use vstd::prelude::*;

verus! {

/// The labels as one text: every label followed by a line break.
pub open spec fn joined(labels: Seq<Seq<char>>) -> Seq<char>
    decreases labels.len(),
{
    if labels.len() == 0 {
        Seq::empty()
    } else {
        joined(labels.drop_last()) + labels.last() + seq!['\n']
    }
}

/// The lines of a text that are complete after its first `n` characters,
/// and what is read of the line that is not.
pub open spec fn lines_after(text: Seq<char>, n: nat) -> (Seq<Seq<char>>, Seq<char>)
    decreases n,
{
    if n == 0 || n > text.len() {
        (Seq::empty(), Seq::empty())
    } else {
        let before = lines_after(text, (n - 1) as nat);
        if text[n - 1] == '\n' {
            (before.0.push(before.1), Seq::empty())
        } else {
            (before.0, before.1.push(text[n - 1]))
        }
    }
}

/// The lines of a text: what stands before each line break. What follows
/// the last line break is no line.
pub open spec fn lines(text: Seq<char>) -> Seq<Seq<char>> {
    lines_after(text, text.len()).0
}

/// The views of the labels, in order.
pub open spec fn views(labels: Seq<String>) -> Seq<Seq<char>> {
    Seq::new(labels.len(), |i: int| labels[i]@)
}

/// None of the labels holds a line break.
pub open spec fn unbroken(labels: Seq<Seq<char>>) -> bool {
    forall|i: int| 0 <= i < labels.len() ==> !(#[trigger] labels[i]).contains('\n')
}

/// Reading on through a label without line break adds the label to the
/// line that is read.
proof fn lemma_read_on(text: Seq<char>, label: Seq<char>, rest: Seq<char>, k: nat)
    requires
        !label.contains('\n'),
        k <= label.len(),
        lines_after(text, text.len()).1 == Seq::<char>::empty(),
    ensures
        lines_after(text + label + rest, text.len() + k) == (
            lines_after(text, text.len()).0,
            label.take(k as int),
        ),
    decreases k,
{
    let whole = text + label + rest;
    if k == 0 {
        lemma_same_start(text, label + rest, text.len());
        assert(text + (label + rest) =~= whole);
        assert(label.take(0) =~= Seq::<char>::empty());
    } else {
        lemma_read_on(text, label, rest, (k - 1) as nat);
        assert(whole[text.len() + k - 1] == label[k - 1]);
        assert(label.contains(label[k - 1]));
        assert(label.take(k - 1).push(label[k - 1]) =~= label.take(k as int));
    }
}

/// The first characters of a text make the same lines whatever follows.
proof fn lemma_same_start(text: Seq<char>, rest: Seq<char>, n: nat)
    requires
        n <= text.len(),
    ensures
        lines_after(text + rest, n) == lines_after(text, n),
    decreases n,
{
    if n > 0 {
        lemma_same_start(text, rest, (n - 1) as nat);
        assert((text + rest)[n - 1] == text[n - 1]);
    }
}

/// Round trip: the lines of the joined labels are the labels, if none of
/// them holds a line break.
pub proof fn lemma_lines_of_joined(labels: Seq<Seq<char>>)
    requires
        unbroken(labels),
    ensures
        lines(joined(labels)) == labels,
        lines_after(joined(labels), joined(labels).len()).1 == Seq::<char>::empty(),
    decreases labels.len(),
{
    if labels.len() > 0 {
        let before = labels.drop_last();
        let label = labels.last();
        assert forall|i: int| 0 <= i < before.len() implies !(#[trigger] before[i]).contains('\n') by {
            assert(before[i] == labels[i]);
        }
        lemma_lines_of_joined(before);
        let text = joined(before);
        let whole = joined(labels);
        let end = seq!['\n'];
        lemma_read_on(text, label, end, label.len());
        assert(label.take(label.len() as int) =~= label);
        assert(whole.len() == text.len() + label.len() + 1);
        assert(whole[whole.len() - 1] == '\n');
        assert(lines_after(whole, whole.len()) == (before.push(label), Seq::<char>::empty()));
        assert(before.push(label) =~= labels);
    }
}

/// Appends one character.
///
/// Trusted: it calls `String::push`, which appends the character to the
/// end of the string.
#[verifier::external_body]
fn push_char(text: &mut String, c: char)
    ensures
        final(text)@ == old(text)@.push(c),
{
    text.push(c);
}

/// Whether the label holds a line break.
pub fn has_line_break(label: &String) -> (has: bool)
    ensures
        has == label@.contains('\n'),
{
    let mut has = false;
    for c in it: label.as_str().chars()
        invariant
            it.seq() == label@,
            has == exists|j: int| 0 <= j < it.index() && label@[j] == '\n',
    {
        if c == '\n' {
            has = true;
        }
    }
    has
}

/// The labels as one text, every label followed by a line break; `None`
/// if a label holds a line break itself.
pub fn join_labels(labels: &Vec<String>) -> (text: Option<String>)
    ensures
        match text {
            Some(text) => unbroken(views(labels@)) && text@ == joined(views(labels@)),
            None => !unbroken(views(labels@)),
        },
{
    let mut text = String::new();
    let mut i: usize = 0;
    while i < labels.len()
        invariant
            i <= labels@.len(),
            unbroken(views(labels@).take(i as int)),
            text@ == joined(views(labels@).take(i as int)),
        decreases labels@.len() - i,
    {
        if has_line_break(&labels[i]) {
            proof {
                assert(views(labels@)[i as int].contains('\n'));
            }
            return None;
        }
        text.append(labels[i].as_str());
        push_char(&mut text, '\n');
        proof {
            let all = views(labels@);
            assert(all.take(i + 1).drop_last() =~= all.take(i as int));
            assert(all.take(i + 1).last() == labels@[i as int]@);
            assert forall|j: int| 0 <= j < all.take(i + 1).len() implies !(
            #[trigger] all.take(i + 1)[j]).contains('\n') by {
                if j < i {
                    assert(all.take(i as int)[j] == all.take(i + 1)[j]);
                }
            }
        }
        i += 1;
    }
    proof {
        assert(views(labels@).take(labels@.len() as int) =~= views(labels@));
    }
    Some(text)
}

/// The lines of a text: what stands before each line break.
pub fn split_labels(text: &String) -> (labels: Vec<String>)
    ensures
        views(labels@) == lines(text@),
{
    let mut labels: Vec<String> = Vec::new();
    let mut current = String::new();
    for c in it: text.as_str().chars()
        invariant
            it.seq() == text@,
            it.index() <= text@.len(),
            (views(labels@), current@) == lines_after(text@, it.index() as nat),
    {
        assert(c == text@[it.index() as int]);
        if c == '\n' {
            let ghost before = views(labels@);
            labels.push(current);
            assert(views(labels@) =~= before.push(current@));
            current = String::new();
        } else {
            let ghost before = views(labels@);
            push_char(&mut current, c);
            assert(views(labels@) =~= before);
        }
    }
    labels
}

} // verus!
