use vstd::prelude::*;

verus! {

/// The number of commits taken when every `stride`-th one is taken.
pub open spec fn strided_len(len: int, stride: int) -> int {
    (len + stride - 1) / stride
}

/// The commits a scan evaluates: `sample` evenly spaced commits (the middle
/// one for a sample of one, all of them when the sample covers the range),
/// or else every `stride`-th commit starting with the first.
pub open spec fn selection(commits: Seq<String>, stride: usize, sample: Option<usize>) -> Seq<String> {
    let len = commits.len() as int;
    match sample {
        Some(s) => if s == 0 || len == 0 {
            Seq::empty()
        } else if s >= len {
            commits
        } else if s == 1 {
            seq![commits[len / 2]]
        } else {
            Seq::new(s as nat, |i: int| commits[i * (len - 1) / (s - 1)])
        },
        None => {
            let step = if stride == 0 {
                1
            } else {
                stride as int
            };
            Seq::new(strided_len(len, step) as nat, |i: int| commits[i * step])
        },
    }
}

/// Chooses the commits a scan evaluates: `sample` evenly spaced commits when
/// a sample is given, every `stride`-th commit otherwise (a stride of zero
/// counts as one).
pub fn select_commits(commits: Vec<String>, stride: usize, sample: Option<usize>) -> (selected: Vec<String>)
    ensures
        selected@ == selection(commits@, stride, sample),
{
    let len = commits.len();
    if let Some(sample) = sample {
        if sample == 0 || len == 0 {
            assert(selection(commits@, stride, Some(sample)) =~= Seq::<String>::empty());
            return Vec::new();
        }
        if sample >= len {
            return commits;
        }
        if sample == 1 {
            let mut one: Vec<String> = Vec::new();
            one.push(commits[len / 2].clone());
            assert(one@ =~= selection(commits@, stride, Some(sample)));
            return one;
        }
        let last = len - 1;
        let mut selected: Vec<String> = Vec::new();
        let mut index: usize = 0;
        while index < sample
            invariant
                2 <= sample < len == commits@.len(),
                last == len - 1,
                index <= sample,
                selected@ == Seq::new(index as nat, |i: int| commits@[i * (len - 1) / (sample - 1)]),
            decreases sample - index,
        {
            proof {
                assert(index as int * last as int <= (sample as int - 1) * last as int) by (nonlinear_arith)
                    requires index < sample, last >= 0;
                assert(index as int * last as int >= 0) by (nonlinear_arith)
                    requires index >= 0, last >= 0;
                assert((sample as int - 1) * last as int <= usize::MAX as int * usize::MAX as int) by (nonlinear_arith)
                    requires sample <= usize::MAX, last <= usize::MAX, sample >= 1;
                assert(usize::MAX as int * usize::MAX as int <= u128::MAX) by (nonlinear_arith)
                    requires usize::MAX <= u64::MAX;
            }
            let product: u128 = index as u128 * last as u128;
            let position: u128 = product / (sample as u128 - 1);
            proof {
                assert(position as int <= last as int) by (nonlinear_arith)
                    requires position as int == product as int / (sample as int - 1), product as int == index as int * last as int, index < sample, sample >= 2, last >= 0;
                assert(position as int == index as int * (len as int - 1) / (sample as int - 1));
            }
            selected.push(commits[position as usize].clone());
            proof {
                assert(selected@ =~= Seq::new((index + 1) as nat, |i: int| commits@[i * (len - 1) / (sample - 1)]));
            }
            index = index + 1;
        }
        return selected;
    }
    let step = if stride == 0 {
        1
    } else {
        stride
    };
    let mut selected: Vec<String> = Vec::new();
    if len == 0 {
        assert(strided_len(0, step as int) == 0) by {
            vstd::arithmetic::div_mod::lemma_div_multiples_vanish_fancy(0, (step - 1) as int, step as int);
        }
        assert(selected@ =~= selection(commits@, stride, sample));
        return selected;
    }
    let mut position: usize = 0;
    let mut taken: usize = 0;
    loop
        invariant
            len == commits@.len(),
            step >= 1,
            step == if stride == 0 { 1 } else { stride },
            sample is None,
            position == taken * step,
            taken <= position < len,
            selected@ == Seq::new(taken as nat, |i: int| commits@[i * step]),
        decreases len - position,
    {
        selected.push(commits[position].clone());
        proof {
            assert(selected@ =~= Seq::new((taken + 1) as nat, |i: int| commits@[i * step]));
        }
        taken = taken + 1;
        if len - position <= step {
            proof {
                let b = len + step - 1 - taken * step;
                assert((taken as int) * (step as int) == (taken as int - 1) * (step as int) + step as int) by (nonlinear_arith);
                assert(taken * step == position + step);
                assert(0 <= b < step);
                assert(len + step - 1 == step * taken + b) by (nonlinear_arith)
                    requires b == len + step - 1 - taken * step;
                vstd::arithmetic::div_mod::lemma_div_multiples_vanish_fancy(taken as int, b as int, step as int);
                assert(strided_len(len as int, step as int) == taken);
                assert(selected@ =~= selection(commits@, stride, sample));
            }
            return selected;
        }
        proof {
            assert((taken as int) * (step as int) == (taken as int - 1) * (step as int) + step as int) by (nonlinear_arith);
            assert(taken <= taken * step) by (nonlinear_arith)
                requires step >= 1, taken >= 0;
        }
        position = position + step;
    }
}

} // verus!
