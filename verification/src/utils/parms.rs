//! The integer parameters of an engine. The spreads of the noise and the
//! kind of transform used by the automorphisms are no integers and stay with
//! the caller who generates the keys.

use vstd::prelude::*;

verus! {

#[derive(Clone, Copy, Debug, PartialEq, Eq, Structural)]
pub struct ProcessorParam {
    lwe_dimension: usize,
    polynomial_size: usize,
    glwe_dimension: usize,
    large_glwe_dimension: usize,
    pbs_base_log: usize,
    pbs_level: usize,
    ks_base_log: usize,
    ks_level: usize,
    auto_base_log: usize,
    auto_level: usize,
    ss_base_log: usize,
    ss_level: usize,
    cbs_base_log: usize,
    cbs_level: usize,
    log_lut_count: usize,
    message_size: usize,
    extract_size: usize,
}

impl ProcessorParam {
    pub fn new(
        lwe_dimension: usize,
        polynomial_size: usize,
        glwe_dimension: usize,
        large_glwe_dimension: usize,
        pbs_base_log: usize,
        pbs_level: usize,
        ks_base_log: usize,
        ks_level: usize,
        auto_base_log: usize,
        auto_level: usize,
        ss_base_log: usize,
        ss_level: usize,
        cbs_base_log: usize,
        cbs_level: usize,
        log_lut_count: usize,
        message_size: usize,
        extract_size: usize,
    ) -> (param: Self)
        ensures
            param.lwe_dimension() == lwe_dimension,
            param.polynomial_size() == polynomial_size,
            param.glwe_dimension() == glwe_dimension,
            param.large_glwe_dimension() == large_glwe_dimension,
            param.pbs_base_log() == pbs_base_log,
            param.pbs_level() == pbs_level,
            param.ks_base_log() == ks_base_log,
            param.ks_level() == ks_level,
            param.auto_base_log() == auto_base_log,
            param.auto_level() == auto_level,
            param.ss_base_log() == ss_base_log,
            param.ss_level() == ss_level,
            param.cbs_base_log() == cbs_base_log,
            param.cbs_level() == cbs_level,
            param.log_lut_count() == log_lut_count,
            param.message_size() == message_size,
            param.extract_size() == extract_size,
    {
        ProcessorParam {
            lwe_dimension,
            polynomial_size,
            glwe_dimension,
            large_glwe_dimension,
            pbs_base_log,
            pbs_level,
            ks_base_log,
            ks_level,
            auto_base_log,
            auto_level,
            ss_base_log,
            ss_level,
            cbs_base_log,
            cbs_level,
            log_lut_count,
            message_size,
            extract_size,
        }
    }

    /// The dimension of the small key under which chunks are bootstrapped.
    pub closed spec fn spec_lwe_dimension(&self) -> usize {
        self.lwe_dimension
    }

    /// The dimension of the small key under which chunks are bootstrapped.
    #[verifier::when_used_as_spec(spec_lwe_dimension)]
    pub fn lwe_dimension(&self) -> (value: usize)
        ensures
            value == self.lwe_dimension(),
    {
        self.lwe_dimension
    }

    /// The number of coefficients of a polynomial.
    pub closed spec fn spec_polynomial_size(&self) -> usize {
        self.polynomial_size
    }

    /// The number of coefficients of a polynomial.
    #[verifier::when_used_as_spec(spec_polynomial_size)]
    pub fn polynomial_size(&self) -> (value: usize)
        ensures
            value == self.polynomial_size(),
    {
        self.polynomial_size
    }

    /// The number of mask polynomials of a GLWE ciphertext.
    pub closed spec fn spec_glwe_dimension(&self) -> usize {
        self.glwe_dimension
    }

    /// The number of mask polynomials of a GLWE ciphertext.
    #[verifier::when_used_as_spec(spec_glwe_dimension)]
    pub fn glwe_dimension(&self) -> (value: usize)
        ensures
            value == self.glwe_dimension(),
    {
        self.glwe_dimension
    }

    /// The number of mask polynomials of the large GLWE ciphertexts.
    pub closed spec fn spec_large_glwe_dimension(&self) -> usize {
        self.large_glwe_dimension
    }

    /// The number of mask polynomials of the large GLWE ciphertexts.
    #[verifier::when_used_as_spec(spec_large_glwe_dimension)]
    pub fn large_glwe_dimension(&self) -> (value: usize)
        ensures
            value == self.large_glwe_dimension(),
    {
        self.large_glwe_dimension
    }

    /// The logarithm of the decomposition base of bootstrapping.
    pub closed spec fn spec_pbs_base_log(&self) -> usize {
        self.pbs_base_log
    }

    /// The logarithm of the decomposition base of bootstrapping.
    #[verifier::when_used_as_spec(spec_pbs_base_log)]
    pub fn pbs_base_log(&self) -> (value: usize)
        ensures
            value == self.pbs_base_log(),
    {
        self.pbs_base_log
    }

    /// The number of decomposition levels of bootstrapping.
    pub closed spec fn spec_pbs_level(&self) -> usize {
        self.pbs_level
    }

    /// The number of decomposition levels of bootstrapping.
    #[verifier::when_used_as_spec(spec_pbs_level)]
    pub fn pbs_level(&self) -> (value: usize)
        ensures
            value == self.pbs_level(),
    {
        self.pbs_level
    }

    /// The logarithm of the decomposition base of key switching.
    pub closed spec fn spec_ks_base_log(&self) -> usize {
        self.ks_base_log
    }

    /// The logarithm of the decomposition base of key switching.
    #[verifier::when_used_as_spec(spec_ks_base_log)]
    pub fn ks_base_log(&self) -> (value: usize)
        ensures
            value == self.ks_base_log(),
    {
        self.ks_base_log
    }

    /// The number of decomposition levels of key switching.
    pub closed spec fn spec_ks_level(&self) -> usize {
        self.ks_level
    }

    /// The number of decomposition levels of key switching.
    #[verifier::when_used_as_spec(spec_ks_level)]
    pub fn ks_level(&self) -> (value: usize)
        ensures
            value == self.ks_level(),
    {
        self.ks_level
    }

    /// The logarithm of the decomposition base of the automorphisms.
    pub closed spec fn spec_auto_base_log(&self) -> usize {
        self.auto_base_log
    }

    /// The logarithm of the decomposition base of the automorphisms.
    #[verifier::when_used_as_spec(spec_auto_base_log)]
    pub fn auto_base_log(&self) -> (value: usize)
        ensures
            value == self.auto_base_log(),
    {
        self.auto_base_log
    }

    /// The number of decomposition levels of the automorphisms.
    pub closed spec fn spec_auto_level(&self) -> usize {
        self.auto_level
    }

    /// The number of decomposition levels of the automorphisms.
    #[verifier::when_used_as_spec(spec_auto_level)]
    pub fn auto_level(&self) -> (value: usize)
        ensures
            value == self.auto_level(),
    {
        self.auto_level
    }

    /// The logarithm of the decomposition base of scheme switching.
    pub closed spec fn spec_ss_base_log(&self) -> usize {
        self.ss_base_log
    }

    /// The logarithm of the decomposition base of scheme switching.
    #[verifier::when_used_as_spec(spec_ss_base_log)]
    pub fn ss_base_log(&self) -> (value: usize)
        ensures
            value == self.ss_base_log(),
    {
        self.ss_base_log
    }

    /// The number of decomposition levels of scheme switching.
    pub closed spec fn spec_ss_level(&self) -> usize {
        self.ss_level
    }

    /// The number of decomposition levels of scheme switching.
    #[verifier::when_used_as_spec(spec_ss_level)]
    pub fn ss_level(&self) -> (value: usize)
        ensures
            value == self.ss_level(),
    {
        self.ss_level
    }

    /// The logarithm of the decomposition base of the selector bits.
    pub closed spec fn spec_cbs_base_log(&self) -> usize {
        self.cbs_base_log
    }

    /// The logarithm of the decomposition base of the selector bits.
    #[verifier::when_used_as_spec(spec_cbs_base_log)]
    pub fn cbs_base_log(&self) -> (value: usize)
        ensures
            value == self.cbs_base_log(),
    {
        self.cbs_base_log
    }

    /// The number of decomposition levels of the selector bits.
    pub closed spec fn spec_cbs_level(&self) -> usize {
        self.cbs_level
    }

    /// The number of decomposition levels of the selector bits.
    #[verifier::when_used_as_spec(spec_cbs_level)]
    pub fn cbs_level(&self) -> (value: usize)
        ensures
            value == self.cbs_level(),
    {
        self.cbs_level
    }

    /// The logarithm of the number of tables that one bootstrapping evaluates.
    pub closed spec fn spec_log_lut_count(&self) -> usize {
        self.log_lut_count
    }

    /// The logarithm of the number of tables that one bootstrapping evaluates.
    #[verifier::when_used_as_spec(spec_log_lut_count)]
    pub fn log_lut_count(&self) -> (value: usize)
        ensures
            value == self.log_lut_count(),
    {
        self.log_lut_count
    }

    /// The number of binary digits of one chunk.
    pub closed spec fn spec_message_size(&self) -> usize {
        self.message_size
    }

    /// The number of binary digits of one chunk.
    #[verifier::when_used_as_spec(spec_message_size)]
    pub fn message_size(&self) -> (value: usize)
        ensures
            value == self.message_size(),
    {
        self.message_size
    }

    /// The number of selector bits that one chunk yields.
    pub closed spec fn spec_extract_size(&self) -> usize {
        self.extract_size
    }

    /// The number of selector bits that one chunk yields.
    #[verifier::when_used_as_spec(spec_extract_size)]
    pub fn extract_size(&self) -> (value: usize)
        ensures
            value == self.extract_size(),
    {
        self.extract_size
    }
}

} // verus!
