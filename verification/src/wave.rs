//! Wave kernels and the convolution of a field with them.
//!
//! A convolution of `cells` numbers is computed through transforms of twice the length, with zeros
//! behind the numbers, so that nothing wraps around. Of the spectrum only the bins up to the
//! middle are computed; the others mirror them.
use crate::numeric;
use crate::scalar;
use crate::scalar::{Fourier, Scalar};
use crate::tensor;
use vstd::prelude::*;

verus! {

/// Number `t` of a damped wave: `exp(-alpha * t) * cos(omega * t + phi)`.
pub open spec fn wave_of<T: Scalar>(alpha: T, omega: T, phi: T, t: int) -> T {
    let time = scalar::count_of::<T>(t as usize);
    scalar::times_of(
        scalar::exp_of(scalar::times_of(scalar::negated_of(alpha), time)),
        scalar::cos_of(scalar::plus_of(scalar::times_of(omega, time), phi)),
    )
}

/// The first `cells` numbers of a damped wave.
pub open spec fn samples_of<T: Scalar>(alpha: T, omega: T, phi: T, cells: int) -> Seq<T> {
    Seq::new(cells as nat, |t: int| wave_of(alpha, omega, phi, t))
}

/// The sum of the absolute values, kept away from zero.
pub open spec fn size_of<T: Scalar>(samples: Seq<T>) -> T {
    let sizes = Seq::new(samples.len(), |t: int| scalar::abs_of(samples[t]));
    scalar::larger_of(numeric::sum_of(sizes), numeric::fraction_of::<T>(1, 100000000))
}

/// The kernel of a head: a damped wave scaled to size one.
pub open spec fn kernel_of<T: Scalar>(damping: T, frequency: T, phase: T, cells: int) -> Seq<T> {
    let samples = samples_of(numeric::softplus_of(damping), frequency, phase, cells);
    Seq::new(cells as nat, |t: int| scalar::over_of(samples[t], size_of(samples)))
}

/// A signal as complex numbers, with as many zeros behind it.
pub open spec fn padded_of<T: Scalar, F: Fourier<T>>(signal: Seq<T>) -> Seq<F::Bin> {
    Seq::new(
        2 * signal.len(),
        |i: int|
            if i < signal.len() {
                scalar::bin_of::<T, F>(signal[i], scalar::zero_of::<T>())
            } else {
                scalar::bin_of::<T, F>(scalar::zero_of::<T>(), scalar::zero_of::<T>())
            },
    )
}

/// The spectrum of a signal with zeros behind it.
pub open spec fn spectrum_of<T: Scalar, F: Fourier<T>>(
    signal: Seq<T>,
) -> Seq<F::Bin> {
    scalar::forward_of::<T, F>(padded_of::<T, F>(signal))
}

/// The bins of a kernel's spectrum up to the middle.
pub open spec fn kernel_bins_of<T: Scalar, F: Fourier<T>>(
    kernel: Seq<T>,
) -> Seq<F::Bin> {
    spectrum_of::<T, F>(kernel).take(kernel.len() as int + 1)
}

/// The product of a spectrum with a kernel's bins up to the middle, mirrored behind it.
pub open spec fn filtered_of<T: Scalar, F: Fourier<T>>(
    spectrum: Seq<F::Bin>,
    kernel: Seq<F::Bin>,
    cells: int,
) -> Seq<F::Bin> {
    Seq::new(
        (2 * cells) as nat,
        |i: int|
            if i <= cells {
                scalar::product_of::<T, F>(spectrum[i], kernel[i])
            } else {
                scalar::conjugate_of::<T, F>(
                    scalar::product_of::<T, F>(spectrum[2 * cells - i], kernel[2 * cells - i]),
                )
            },
    )
}

/// The convolution of a signal with a kernel of which the bins are given.
pub open spec fn convolved_of<T: Scalar, F: Fourier<T>>(
    signal: Seq<T>,
    kernel: Seq<F::Bin>,
) -> Seq<T> {
    let cells = signal.len() as int;
    let back = scalar::inverse_of::<T, F>(
        filtered_of::<T, F>(spectrum_of::<T, F>(signal), kernel, cells),
    );
    Seq::new(
        signal.len(),
        |i: int|
            scalar::times_of(
                scalar::real_part_of::<T, F>(back[i]),
                scalar::over_of(numeric::one_of::<T>(), scalar::count_of::<T>((2 * cells) as usize)),
            ),
    )
}

/// The first `terms` terms of number `i` of the convolution of two sequences.
pub open spec fn convolution_of<T: Scalar>(
    signal: Seq<T>,
    kernel: Seq<T>,
    i: int,
    terms: int,
) -> T
    decreases terms,
{
    if terms <= 0 {
        scalar::zero_of::<T>()
    } else {
        scalar::plus_of(
            convolution_of(signal, kernel, i, terms - 1),
            scalar::times_of(signal[terms - 1], kernel[i - (terms - 1)]),
        )
    }
}

/// Whether what is computed through transforms of `2 * cells` numbers is the convolution itself.
pub open spec fn convolves<T: Scalar, F: Fourier<T>>(cells: int) -> bool {
    forall|signal: Seq<T>, kernel: Seq<T>, i: int|
        0 <= i < cells && signal.len() == cells && kernel.len() == cells
            ==> #[trigger] convolved_of::<T, F>(
            signal,
            kernel_bins_of::<T, F>(kernel),
        )[i] == convolution_of(signal, kernel, i, i + 1)
}

/// Number `c` of every cell of a field.
pub open spec fn column_of<T>(field: Seq<T>, cells: int, dim: int, c: int) -> Seq<T> {
    Seq::new(cells as nat, |i: int| field[i * dim + c])
}

/// A field of which each column is convolved with the same kernel.
pub open spec fn convolved_field_of<T: Scalar, F: Fourier<T>>(
    field: Seq<T>,
    kernel: Seq<F::Bin>,
    cells: int,
    dim: int,
) -> Seq<T> {
    tensor::grid(
        cells,
        dim,
        |i: int, c: int|
            convolved_of::<T, F>(column_of(field, cells, dim, c), kernel)[i],
    )
}

/// A convolution looks back only: its numbers before `r` depend on those of the signal before `r`.
pub proof fn convolution_looks_back<T: Scalar>(
    a: Seq<T>,
    b: Seq<T>,
    kernel: Seq<T>,
    i: int,
    terms: int,
)
    requires
        0 <= terms <= i + 1,
        forall|k: int| 0 <= k <= i ==> #[trigger] a[k] == b[k],
    ensures
        convolution_of(a, kernel, i, terms) == convolution_of(b, kernel, i, terms),
    decreases terms,
{
    if terms > 0 {
        convolution_looks_back(a, b, kernel, i, terms - 1);
    }
}

/// The first `cells` numbers of a damped wave.
fn samples<T: Scalar>(alpha: T, omega: T, phi: T, cells: usize) -> (k: Vec<T>)
    requires
        scalar::is_arithmetic::<T>(),
    ensures
        k@ == samples_of(alpha, omega, phi, cells as int),
{
    let mut k: Vec<T> = Vec::new();
    let mut t: usize = 0;
    while t < cells
        invariant
            scalar::is_arithmetic::<T>(),
            t <= cells,
            k@ == samples_of(alpha, omega, phi, t as int),
        decreases cells - t,
    {
        let time = T::from_count(t);
        k.push(alpha.negated().times(time).exp().times(omega.times(time).plus(phi).cos()));
        t += 1;
        assert(k@ =~= samples_of(alpha, omega, phi, t as int));
    }
    k
}

/// The sum of the absolute values, kept away from zero.
fn size<T: Scalar>(samples: &[T]) -> (r: T)
    requires
        scalar::is_arithmetic::<T>(),
    ensures
        r == size_of(samples@),
{
    let mut sizes: Vec<T> = Vec::new();
    let mut t: usize = 0;
    while t < samples.len()
        invariant
            scalar::is_arithmetic::<T>(),
            t <= samples@.len(),
            sizes@.len() == t,
            forall|k: int| 0 <= k < t ==> #[trigger] sizes@[k] == scalar::abs_of(samples@[k]),
        decreases samples@.len() - t,
    {
        sizes.push(samples[t].abs());
        t += 1;
    }
    assert(sizes@ =~= Seq::new(samples@.len(), |t: int| scalar::abs_of(samples@[t])));
    numeric::sum(sizes.as_slice()).larger(numeric::fraction::<T>(1, 100000000))
}

/// The kernel of a head: a damped wave scaled to size one.
pub fn kernel<T: Scalar>(damping: T, frequency: T, phase: T, cells: usize) -> (k: Vec<T>)
    requires
        scalar::is_arithmetic::<T>(),
    ensures
        k@ == kernel_of(damping, frequency, phase, cells as int),
{
    let wave = samples(numeric::softplus(damping), frequency, phase, cells);
    let norm = size(wave.as_slice());
    let mut k: Vec<T> = Vec::new();
    let mut t: usize = 0;
    while t < wave.len()
        invariant
            scalar::is_arithmetic::<T>(),
            t <= wave@.len(),
            k@.len() == t,
            forall|i: int| 0 <= i < t ==> #[trigger] k@[i] == scalar::over_of(wave@[i], norm),
        decreases wave@.len() - t,
    {
        k.push(wave[t].over(norm));
        t += 1;
    }
    assert(k@ =~= kernel_of(damping, frequency, phase, cells as int));
    k
}

/// The spectrum of a signal with as many zeros behind it.
fn spectrum<T: Scalar, F: Fourier<T>>(planner: &F, signal: &[T]) -> (bins: Vec<F::Bin>)
    requires
        scalar::is_arithmetic::<T>(),
        scalar::is_transform::<T, F>(planner),
        2 * signal@.len() <= usize::MAX,
    ensures
        bins@ == spectrum_of::<T, F>(signal@),
        bins@.len() == 2 * signal@.len(),
{
    let cells = signal.len();
    let mut padded: Vec<F::Bin> = Vec::new();
    let mut i: usize = 0;
    while i < 2 * cells
        invariant
            scalar::is_arithmetic::<T>(),
            scalar::is_transform::<T, F>(planner),
            cells == signal@.len(),
            2 * cells <= usize::MAX,
            i <= 2 * cells,
            padded@.len() == i,
            forall|k: int|
                0 <= k < i ==> #[trigger] padded@[k] == padded_of::<T, F>(signal@)[k],
        decreases 2 * cells - i,
    {
        let re = if i < cells {
            signal[i]
        } else {
            T::zero()
        };
        padded.push(F::bin(re, T::zero()));
        i += 1;
    }
    assert(padded@ =~= padded_of::<T, F>(signal@));
    planner.forward(padded.as_slice())
}

/// The bins of a kernel's spectrum up to the middle.
pub fn kernel_bins<T: Scalar, F: Fourier<T>>(planner: &F, kernel: &[T]) -> (bins: Vec<F::Bin>)
    requires
        scalar::is_arithmetic::<T>(),
        scalar::is_transform::<T, F>(planner),
        0 < kernel@.len(),
        2 * kernel@.len() <= usize::MAX,
    ensures
        bins@ == kernel_bins_of::<T, F>(kernel@),
        bins@.len() == kernel@.len() + 1,
{
    let mut bins = spectrum::<T, F>(planner, kernel);
    bins.truncate(kernel.len() + 1);
    bins
}

/// The product of a spectrum with a kernel's bins up to the middle, mirrored behind it.
fn filtered<T: Scalar, F: Fourier<T>>(
    planner: &F,
    spectrum: &[F::Bin],
    kernel: &[F::Bin],
    cells: usize,
) -> (bins: Vec<F::Bin>)
    requires
        scalar::is_transform::<T, F>(planner),
        0 < cells,
        spectrum@.len() == 2 * cells,
        kernel@.len() == cells + 1,
    ensures
        bins@ == filtered_of::<T, F>(spectrum@, kernel@, cells as int),
{
    let mut bins: Vec<F::Bin> = Vec::new();
    let mut i: usize = 0;
    while i <= cells
        invariant
            scalar::is_transform::<T, F>(planner),
            0 < cells,
            spectrum@.len() == 2 * cells,
            kernel@.len() == cells + 1,
            kernel.len() == cells + 1,
            i <= cells + 1,
            bins@.len() == i,
            forall|k: int|
                0 <= k < i ==> #[trigger] bins@[k] == scalar::product_of::<T, F>(
                    spectrum@[k],
                    kernel@[k],
                ),
        decreases cells + 1 - i,
    {
        bins.push(F::product(spectrum[i], kernel[i]));
        i += 1;
    }
    while i < spectrum.len()
        invariant
            scalar::is_transform::<T, F>(planner),
            0 < cells,
            spectrum@.len() == 2 * cells,
            cells + 1 <= i <= 2 * cells,
            bins@.len() == i,
            forall|k: int|
                0 <= k <= cells ==> #[trigger] bins@[k] == scalar::product_of::<T, F>(
                    spectrum@[k],
                    kernel@[k],
                ),
            forall|k: int|
                cells < k < i ==> #[trigger] bins@[k] == scalar::conjugate_of::<T, F>(
                    scalar::product_of::<T, F>(spectrum@[2 * cells - k], kernel@[2 * cells - k]),
                ),
        decreases 2 * cells - i,
    {
        bins.push(F::conjugate(bins[spectrum.len() - i]));
        i += 1;
    }
    assert(bins@ =~= filtered_of::<T, F>(spectrum@, kernel@, cells as int));
    bins
}

/// The convolution of a signal with a kernel of which the bins are given.
pub fn convolve<T: Scalar, F: Fourier<T>>(
    planner: &F,
    signal: &[T],
    kernel: &[F::Bin],
) -> (out: Vec<T>)
    requires
        scalar::is_arithmetic::<T>(),
        scalar::is_transform::<T, F>(planner),
        0 < signal@.len(),
        2 * signal@.len() <= usize::MAX,
        kernel@.len() == signal@.len() + 1,
    ensures
        out@ == convolved_of::<T, F>(signal@, kernel@),
        out@.len() == signal@.len(),
{
    let cells = signal.len();
    let bins = spectrum::<T, F>(planner, signal);
    let product = filtered::<T, F>(planner, bins.as_slice(), kernel, cells);
    let back = planner.inverse(product.as_slice());
    let scale = T::from_count(1).over(T::from_count(2 * cells));
    let mut out: Vec<T> = Vec::new();
    let mut i: usize = 0;
    while i < cells
        invariant
            scalar::is_arithmetic::<T>(),
            scalar::is_transform::<T, F>(planner),
            i <= cells,
            back@.len() == 2 * cells,
            out@.len() == i,
            forall|k: int|
                0 <= k < i ==> #[trigger] out@[k] == scalar::times_of(
                    scalar::real_part_of::<T, F>(back@[k]),
                    scale,
                ),
        decreases cells - i,
    {
        out.push(F::real_part(back[i]).times(scale));
        i += 1;
    }
    assert(out@ =~= convolved_of::<T, F>(signal@, kernel@));
    out
}

/// Number `c` of every cell of a field.
fn column<T: Scalar>(field: &[T], cells: usize, dim: usize, c: usize) -> (out: Vec<T>)
    requires
        c < dim,
        cells * dim <= field@.len(),
    ensures
        out@ == column_of(field@, cells as int, dim as int, c as int),
{
    let mut out: Vec<T> = Vec::new();
    let mut i: usize = 0;
    while i < cells
        invariant
            c < dim,
            cells * dim <= field.len(),
            i <= cells,
            out@.len() == i,
            forall|k: int| 0 <= k < i ==> #[trigger] out@[k] == field@[k * dim + c],
        decreases cells - i,
    {
        proof {
            tensor::lemma_index(cells as int, dim as int, i as int, c as int);
        }
        out.push(field[i * dim + c]);
        i += 1;
    }
    assert(out@ =~= column_of(field@, cells as int, dim as int, c as int));
    out
}

/// Convolves each column of a field with the same kernel.
pub fn convolve_field<T: Scalar, F: Fourier<T>>(
    planner: &F,
    field: &[T],
    kernel: &[F::Bin],
    cells: usize,
    dim: usize,
) -> (out: Vec<T>)
    requires
        scalar::is_arithmetic::<T>(),
        scalar::is_transform::<T, F>(planner),
        0 < cells,
        2 * cells <= usize::MAX,
        cells * dim <= field@.len(),
        kernel@.len() == cells + 1,
    ensures
        out@ == convolved_field_of::<T, F>(field@, kernel@, cells as int, dim as int),
        out@.len() == cells * dim,
{
    let mut columns: Vec<Vec<T>> = Vec::new();
    let mut c: usize = 0;
    while c < dim
        invariant
            scalar::is_arithmetic::<T>(),
            scalar::is_transform::<T, F>(planner),
            0 < cells,
            2 * cells <= usize::MAX,
            cells * dim <= field@.len(),
            kernel@.len() == cells + 1,
            c <= dim,
            columns@.len() == c,
            forall|k: int|
                0 <= k < c ==> (#[trigger] columns@[k])@.len() == cells && columns@[k]@
                    == convolved_of::<T, F>(
                    column_of(field@, cells as int, dim as int, k),
                    kernel@,
                ),
        decreases dim - c,
    {
        let signal = column(field, cells, dim, c);
        columns.push(convolve::<T, F>(planner, signal.as_slice(), kernel));
        c += 1;
    }
    let ghost f = |i: int, c: int|
        convolved_of::<T, F>(column_of(field@, cells as int, dim as int, c), kernel@)[i];
    let mut out: Vec<T> = Vec::new();
    let mut i: usize = 0;
    proof {
        tensor::lemma_grid(0, dim as int, f);
        assert(out@ =~= tensor::grid(0, dim as int, f));
    }
    while i < cells
        invariant
            i <= cells,
            columns@.len() == dim,
            forall|k: int|
                0 <= k < dim ==> (#[trigger] columns@[k])@.len() == cells && columns@[k]@
                    == convolved_of::<T, F>(
                    column_of(field@, cells as int, dim as int, k),
                    kernel@,
                ),
            f == (|i: int, c: int|
                convolved_of::<T, F>(
                    column_of(field@, cells as int, dim as int, c),
                    kernel@,
                )[i]),
            out@ == tensor::grid(i as int, dim as int, f),
        decreases cells - i,
    {
        let mut row: Vec<T> = Vec::new();
        let mut c: usize = 0;
        while c < dim
            invariant
                i < cells,
                c <= dim,
                columns@.len() == dim,
                forall|k: int| 0 <= k < dim ==> (#[trigger] columns@[k])@.len() == cells,
                row@.len() == c,
                forall|k: int| 0 <= k < c ==> #[trigger] row@[k] == columns@[k]@[i as int],
            decreases dim - c,
        {
            row.push(columns[c][i]);
            c += 1;
        }
        proof {
            tensor::lemma_grid_push_row(out@, row@, i as int, dim as int, f);
        }
        out.append(&mut row);
        i += 1;
    }
    proof {
        tensor::lemma_grid(cells as int, dim as int, f);
    }
    out
}

} // verus!
