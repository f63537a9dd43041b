//! Exact transforms convolve.
//!
//! The convolution theorem says that the product of two spectra is the spectrum of the circular
//! convolution of the signals. What the theorem takes for granted, of the arithmetic and of the
//! transforms, is in `is_exact`; it says nothing of how the library uses them. That the zeros
//! behind the numbers keep the end of a field from wrapping around, and that the bins up to the
//! middle determine the others, is proved here. Floating point numbers are exact up to rounding
//! only.
use crate::numeric;
use crate::scalar;
use crate::scalar::{Fourier, Scalar};
use crate::tensor;
use crate::wave;
use vstd::prelude::*;

verus! {

/// A real signal as complex numbers.
pub open spec fn real_bins_of<T: Scalar, F: Fourier<T>>(signal: Seq<T>) -> Seq<F::Bin> {
    Seq::new(signal.len(), |i: int| scalar::bin_of::<T, F>(signal[i], scalar::zero_of::<T>()))
}

/// The spectrum of a real signal.
pub open spec fn real_spectrum_of<T: Scalar, F: Fourier<T>>(
    signal: Seq<T>,
) -> Seq<F::Bin> {
    scalar::forward_of::<T, F>(real_bins_of::<T, F>(signal))
}

/// The products of the bins in the same places.
pub open spec fn products_of<T: Scalar, F: Fourier<T>>(
    a: Seq<F::Bin>,
    b: Seq<F::Bin>,
    len: int,
) -> Seq<F::Bin> {
    Seq::new(len as nat, |i: int| scalar::product_of::<T, F>(a[i], b[i]))
}

/// The first `terms` terms of number `i` of the circular convolution of two signals of the same
/// length.
pub open spec fn circular_of<T: Scalar>(x: Seq<T>, y: Seq<T>, i: int, terms: int) -> T
    decreases terms,
{
    if terms <= 0 {
        scalar::zero_of::<T>()
    } else {
        let s = terms - 1;
        let back = if s <= i {
            i - s
        } else {
            i - s + y.len()
        };
        scalar::plus_of(circular_of(x, y, i, s), scalar::times_of(x[s], y[back]))
    }
}

/// Whether arithmetic and transforms on `len` numbers are exact:
///
/// - zero added changes nothing, and a product with zero is zero;
/// - what is multiplied by `len` and then by one over `len` is back;
/// - conjugation goes through products;
/// - both transforms keep the length;
/// - the spectrum of a real signal is its own mirror image, conjugated;
/// - transformed back, the product of the spectra of two real signals is `len` times their circular
///   convolution.
pub open spec fn is_exact<T: Scalar, F: Fourier<T>>(len: int) -> bool {
    let zero = scalar::zero_of::<T>();
    let n = scalar::count_of::<T>(len as usize);
    &&& forall|a: T| #[trigger] scalar::plus_of(a, zero) == a
    &&& forall|a: T| #[trigger] scalar::times_of(a, zero) == zero
    &&& forall|a: T| #[trigger] scalar::times_of(zero, a) == zero
    &&& forall|a: T|
        scalar::times_of(
            #[trigger] scalar::times_of(n, a),
            scalar::over_of(numeric::one_of::<T>(), n),
        ) == a
    &&& forall|a: F::Bin, b: F::Bin|
        scalar::conjugate_of::<T, F>(#[trigger] scalar::product_of::<T, F>(a, b))
            == scalar::product_of::<T, F>(
            scalar::conjugate_of::<T, F>(a),
            scalar::conjugate_of::<T, F>(b),
        )
    &&& forall|x: Seq<T>|
        x.len() == len ==> (#[trigger] real_spectrum_of::<T, F>(x)).len() == len
    &&& forall|x: Seq<T>, k: int|
        x.len() == len && 0 < k < len ==> #[trigger] real_spectrum_of::<T, F>(x)[k]
            == scalar::conjugate_of::<T, F>(real_spectrum_of::<T, F>(x)[len - k])
    &&& forall|x: Seq<T>, y: Seq<T>, i: int|
        x.len() == len && y.len() == len && 0 <= i < len ==> scalar::real_part_of::<T, F>(
            #[trigger] scalar::inverse_of::<T, F>(
                products_of::<T, F>(
                    real_spectrum_of::<T, F>(x),
                    real_spectrum_of::<T, F>(y),
                    len,
                ),
            )[i],
        ) == scalar::times_of(n, circular_of(x, y, i, len))
}

/// A signal with as many zeros behind it.
spec fn extended_of<T: Scalar>(signal: Seq<T>) -> Seq<T> {
    Seq::new(
        2 * signal.len(),
        |i: int|
            if i < signal.len() {
                signal[i]
            } else {
                scalar::zero_of::<T>()
            },
    )
}

/// A padded signal is a real signal.
proof fn lemma_padded<T: Scalar, F: Fourier<T>>(signal: Seq<T>)
    ensures
        wave::padded_of::<T, F>(signal) == real_bins_of::<T, F>(extended_of(signal)),
{
    assert(wave::padded_of::<T, F>(signal) =~= real_bins_of::<T, F>(extended_of(signal)));
}

/// Up to the current number nothing wraps around.
proof fn lemma_circular_start<T: Scalar>(signal: Seq<T>, kernel: Seq<T>, i: int, terms: int)
    requires
        0 <= i < signal.len(),
        signal.len() == kernel.len(),
        0 <= terms <= i + 1,
    ensures
        circular_of(extended_of(signal), extended_of(kernel), i, terms) == wave::convolution_of(
            signal,
            kernel,
            i,
            terms,
        ),
    decreases terms,
{
    if terms > 0 {
        lemma_circular_start(signal, kernel, i, terms - 1);
    }
}

/// Behind the current number everything that wraps around meets a zero.
proof fn lemma_circular_end<T: Scalar>(signal: Seq<T>, kernel: Seq<T>, i: int, terms: int)
    requires
        0 <= i < signal.len(),
        signal.len() == kernel.len(),
        i + 1 <= terms <= 2 * signal.len(),
        forall|a: T| #[trigger]
            scalar::plus_of(a, scalar::zero_of::<T>()) == a,
        forall|a: T| #[trigger]
            scalar::times_of(a, scalar::zero_of::<T>()) == scalar::zero_of::<T>(),
        forall|a: T| #[trigger]
            scalar::times_of(scalar::zero_of::<T>(), a) == scalar::zero_of::<T>(),
    ensures
        circular_of(extended_of(signal), extended_of(kernel), i, terms) == circular_of(
            extended_of(signal),
            extended_of(kernel),
            i,
            i + 1,
        ),
    decreases terms,
{
    if terms > i + 1 {
        lemma_circular_end(signal, kernel, i, terms - 1);
        let s = terms - 1;
        let x = extended_of(signal);
        let y = extended_of(kernel);
        if s < signal.len() {
            assert(y[i - s + y.len()] == scalar::zero_of::<T>());
        } else {
            assert(x[s] == scalar::zero_of::<T>());
        }
    }
}

/// The bins up to the middle and their mirror image are the products of the whole spectra.
proof fn lemma_filtered<T: Scalar, F: Fourier<T>>(
    signal: Seq<T>,
    kernel: Seq<T>,
    cells: int,
)
    requires
        0 < cells,
        signal.len() == cells,
        kernel.len() == cells,
        is_exact::<T, F>(2 * cells),
    ensures
        wave::filtered_of::<T, F>(
            wave::spectrum_of::<T, F>(signal),
            wave::kernel_bins_of::<T, F>(kernel),
            cells,
        ) == products_of::<T, F>(
            real_spectrum_of::<T, F>(extended_of(signal)),
            real_spectrum_of::<T, F>(extended_of(kernel)),
            2 * cells,
        ),
{
    let x = extended_of(signal);
    let y = extended_of(kernel);
    lemma_padded::<T, F>(signal);
    lemma_padded::<T, F>(kernel);
    let a = real_spectrum_of::<T, F>(x);
    let b = real_spectrum_of::<T, F>(y);
    let bins = wave::kernel_bins_of::<T, F>(kernel);
    let u = wave::filtered_of::<T, F>(wave::spectrum_of::<T, F>(signal), bins, cells);
    let v = products_of::<T, F>(a, b, 2 * cells);
    assert(wave::spectrum_of::<T, F>(signal) == a);
    assert(a.len() == 2 * cells && b.len() == 2 * cells);
    assert forall|i: int| 0 <= i < 2 * cells implies u[i] == v[i] by {
        if i <= cells {
            assert(bins[i] == b[i]);
        } else {
            let k = 2 * cells - i;
            assert(bins[k] == b[k]);
            assert(a[i] == scalar::conjugate_of::<T, F>(a[2 * cells - i]));
            assert(b[i] == scalar::conjugate_of::<T, F>(b[2 * cells - i]));
        }
    }
    assert(u =~= v);
}

/// Exact transforms convolve: what is computed through them is the convolution of the signal with
/// the kernel, and nothing wraps around from the end of the field.
pub proof fn exact_transforms_convolve<T: Scalar, F: Fourier<T>>(cells: int)
    requires
        0 < cells,
        is_exact::<T, F>(2 * cells),
    ensures
        wave::convolves::<T, F>(cells),
{
    assert forall|signal: Seq<T>, kernel: Seq<T>, i: int|
        0 <= i < cells && signal.len() == cells && kernel.len()
            == cells implies #[trigger] wave::convolved_of::<T, F>(
        signal,
        wave::kernel_bins_of::<T, F>(kernel),
    )[i] == wave::convolution_of(signal, kernel, i, i + 1) by {
        let x = extended_of(signal);
        let y = extended_of(kernel);
        let n = scalar::count_of::<T>((2 * cells) as usize);
        lemma_filtered::<T, F>(signal, kernel, cells);
        lemma_circular_start(signal, kernel, i, i + 1);
        lemma_circular_end(signal, kernel, i, 2 * cells);
        let all = circular_of(x, y, i, 2 * cells);
        let back = scalar::inverse_of::<T, F>(
            products_of::<T, F>(
                real_spectrum_of::<T, F>(x),
                real_spectrum_of::<T, F>(y),
                2 * cells,
            ),
        );
        assert(scalar::real_part_of::<T, F>(back[i]) == scalar::times_of(n, all));
    }
}

/// What exact transforms make of a field is its convolution with the kernel, column by column, with
/// nothing wrapped around from its end.
pub proof fn field_is_convolved<T: Scalar, F: Fourier<T>>(
    field: Seq<T>,
    kernel: Seq<T>,
    cells: int,
    dim: int,
    i: int,
    c: int,
)
    requires
        0 < cells,
        is_exact::<T, F>(2 * cells),
        kernel.len() == cells,
        0 <= i < cells,
        0 <= c < dim,
    ensures
        wave::convolved_field_of::<T, F>(
            field,
            wave::kernel_bins_of::<T, F>(kernel),
            cells,
            dim,
        )[i * dim + c] == wave::convolution_of(
            wave::column_of(field, cells, dim, c),
            kernel,
            i,
            i + 1,
        ),
{
    exact_transforms_convolve::<T, F>(cells);
    let bins = wave::kernel_bins_of::<T, F>(kernel);
    let f = |i: int, c: int|
        wave::convolved_of::<T, F>(wave::column_of(field, cells, dim, c), bins)[i];
    tensor::lemma_grid(cells, dim, f);
    assert(tensor::grid(cells, dim, f)[i * dim + c] == f(i, c));
}

} // verus!
