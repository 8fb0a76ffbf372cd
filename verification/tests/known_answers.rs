// Answers of an independent implementation of the standard, OpenSSL, for
// seeds and ciphertexts chosen here: the encapsulation key of a seed, the
// shared secret of a ciphertext it made, and the shared secret of that
// ciphertext with one bit changed.
use fips203::ml_kem_1024;
use fips203::ml_kem_768;
use fips203::traits::{Decaps, Encaps, KeyGen, SerDes};
use sha3::{Digest, Sha3_256};

fn unhex(s: &str) -> Vec<u8> {
    (0..s.len() / 2).map(|i| u8::from_str_radix(&s[2 * i..2 * i + 2], 16).unwrap()).collect()
}

struct Answer {
    d: &'static str,
    z: &'static str,
    ek_digest: &'static str,
    ct: &'static str,
    ss: &'static str,
    ss_changed: &'static str,
}

const ANSWERS_768: [Answer; 2] = [
    Answer {
        d: "8be803ec1fec55ea0a7dd3025dd891f181813182d677414051cf55ee384d4efb",
        z: "e6b06b84f3745e4620fe07df449dfefb00839f0afa6d09bab82bfa02a0765e7b",
        ek_digest: "51bd7af7d2f3889b29b6b93b5e81faa1aa9b00b82e5d93a1754be72efafbebd5",
        ct: "4e0c9028db5fc6019cc6847f6b02254f6316793e52243c0cfc56a2a902720365\
         d59a87935d523fe5c79f5e5f360a01985ea324ebba783e59e02e690c706e4898\
         fa4d0e46f67292ca4ddca380ee907d80ab80e8e80ff44146646732d4e849da7f\
         3039874248daed231f123c54861c21fda9bcbb41f030eef7f250520b620e21e7\
         994cd2de4bcca715515cb5cd9812dcca45817eb4c0d04c18f7297f547fac53dc\
         6c90a986c4562ca1175971cfc66ed955e323226408676236967777704e4d93ea\
         5f9ed1d3006cab607e23f5bd05f039b4acf558e8bf7814c146619c9d75ac3bfa\
         bad3189ab328acb9cd859d994d23d8aead5de3d22e9d44e2e0ce4acd15759c54\
         efcd02190ef6534d774c95bf3c2e875765a115991c8af9ad951f410688868e14\
         15d0685ff1ede0d65b33e0475fb4e4d29a8116b3ebf192b8515931e01c9ab7f0\
         cde975701d5f6b780fed56189a8cd860644aa4cff708763d6c338f32375bf043\
         170b25add50c0f0d6afa48a1ec75d96e69806e473bdedf4d029b1de7fda930cf\
         10bd7ddc5cc9c636c840851ae498fa5f8af15bb97c27d219adf3e58d0535844d\
         4fd64b408f07ed4fda5b11858171e5f12f9554e260d13e76c7be0f61048434d8\
         966dd4442d4dc1eb36ce5864571a007eaa018fe66e4e283e6400ac03d3742b36\
         923827b80fdab94aeb179d72c866356f27aa83afe7a2e7691b0cf77db6b05d56\
         758fbabf01f7764c278bcce8f1a1b285ba6e53108f227324aa35215d51b6023a\
         8e9cbcab46409594c2af0c6a8eec48c5a3b899d6d57d4c28d1dd9c9a8b1d9290\
         6de57b95171c8345d2957903bc03ee770e6e504d0e5d911360ae12df01a36a83\
         22f424e99750d47e8265f3a8fb55e0eee43afc97b5b94d62c1a38b3df02d835b\
         cb93cc323cef4f8ceea5fa2facc394fcd1849c3df151e3d5c3498e96d90189c1\
         bfae5b5d01470c0cb9680e1278dfe7d2f83213d379f46a76bdf51e20944ebbaf\
         22e645e81e9454062febc1e37b41b5dddae40ea52bbfd4c03b6c3e14320cd1bf\
         25d42b782cf5adcfd168a68d67e80c1cef2cbdd346201d4e9cd8081a7b90dca6\
         c302b4f771fef8def9d746de348ecd5fba163a170e93f12230c1bf3355da943e\
         04482ef8e96aba0e8ced92ea040ee97b9bf073e1720ce8de94c82a2f73009653\
         cbb61382793c377470ff378f8e656a4ea279b1d049dd1e945225e9de8e6930fa\
         eabd9ebc8582f4a47cadb04eab93fce0f6c373f09e3fdc7c7159321cd72fdc71\
         91c01c029a8c07783f771b914b1efe2b1b6e5e9d74ed195a45230f26b979a9b4\
         ff916f6b84d9514d06e47d1a85c4b2b1ccc73f15d7e626a414351c5ebe6911ed\
         21586c7fd3b7cf0895c4a3292507f41d1b3290400b31b6da0a7f7f9e98964941\
         f2a692ac35eb299431c74dbd7760d2025a5bf89d89f07b8a9b99a803676aa3fe\
         a2817695f60403184fc177927375f65cbe4298c67a98f46b31c8929bd007ff00\
         181e1f6d5f9a1244d83f4d8bdce3243eac23662003ca779466d84b63cd544260",
        ss: "56f9fc873c4017ae9bcd64e48006ad0f82a29280b4b7e3ce4867eff176a6b1bb",
        ss_changed: "bb0881b715485bef98d25c7babb5ac36d201d0005348404bab6ca6e0be166359",
    },
    Answer {
        d: "ac9d2e7adace9f9cc0efdce4173be383a62f923ecbd5469cf5e4a10240b4b289",
        z: "3c738fa531ebd047bbf95285bd9117952e558451f57dcdd26feaa6e01beae436",
        ek_digest: "470a7ca0068eaa8c9434c9060045a648f42d228998bcf44f1ecf465b3c788605",
        ct: "b845c38679d3d18d75fc16eb37d6b17662c395d53ab464c2fe1ffbe1f819b509\
         54b68fdb16930b8e700c528ba02d88b6c8ec319899c9126337fe658178ea10c6\
         d38072e63d16926f1a4bd0054acb5ad1ebaf092873c343d11b512bc0a07ed416\
         f866b9da0b49b5cdf72580d71064d18449bc826ee55370c5c6565cc400bacc88\
         611dffe700e2d8c623a2a4cba63d4a7e57e730b9480eef6773d86c4c8620b445\
         85230188b950b39ba6695318a17f4c4aadfb1e3cb30227523caa13019cd57804\
         b09e970b614a1db061b13dc083b5fad6440892c74369acd557b1fdc15e62aa06\
         eec7bf42d70ae86d915e6b6ce33db2205a59f1f7ff2aca78b0f9517a47e6bc1c\
         4615d5ba44f7bf0e9f83a06ef8cf25f27728f87a5c0e325459ce0a83797ba15a\
         e5cf75f857caf22ff823f9cc701adf04756dc9fd6f1dcbc976173d86be412319\
         f1b7fb69b9fc69009accfae06e7937bce5e2985bbb3cbac15ff7a09defe12c7e\
         0c492cf7834096c8f9fa2f7bc10218262b0ba7044876af71429a3a8e22163d28\
         c9e96290d486dff7e5ac2bbab53faed2d7105abf0984b1660f596d5c63bd5873\
         d0ed9e1ca6cf1f0cdaef4227f192b578e2551d3b2bdb772d7d8f6b407c3f63ac\
         90895b193b68477b7a743d5cd2568b5a9eb10df2b36f9e5b45a6e88c4483fb61\
         6e3c8484d5bd2bb0946c3169b13ae7be909207a729f25894813ee217cdfebb95\
         7567a2f190e78db4d0ac7d9215e1b40e967051a4c91f6e247e486aede005f471\
         c7cee271fd04a1d1503b0d489e8d4f1d19fa6feccc723d8c68e34badcf622755\
         19ceb814151b944f9a4ae86ab8dea0f1e4df7a963b36f2a8b11db16de79b7134\
         aa0f741e6fb359a4d266228a8b9892b4c7ac4f028b94d3a089075eb65e072e2c\
         55fffc66eed677de7a6bd3c47c3a8ea635e41cdc677fccc93ec4a5ede46668a4\
         11edf5fc05c0db1ee0cfe78759a1dbe3fa710688f76428ba48626c90d4e9b377\
         c3825ec6445a01deb21c7dbe892e376aa7b78219bfd2c2669a22c121497d25bf\
         92cbffed52e84001e093b449358bb6a53ddc53181fe0e42846e0b028c6b35568\
         7d94d727145c9d0eba118d4523b0aba93aab2e5e5329195b603da3331b4ce317\
         bae435b808871432ac834f05a2d1abd86f99388ff56994afe506cacbdeb90020\
         609442a11880b317d1c1d789d6a8504138d4bc8c02486c53eb74b736a236396d\
         8b5e28ab0a7799117b9e926fd9c63b5804cc0ac408df5ffb0345c11fd68899ec\
         2df843bb7188c108fd0c07a242cf74939b21dce8954d537b5dca1409dddc2387\
         69219a9332d5360fbc43b1a89fedc4d599e23e0c08fd16a81e977686dcc9d6b7\
         80755c94e28b4b4802cb4311d3e40d20c4ceffce488cf8b851cda836f0f4bb9a\
         c6ed13cad62f41e7b8a1522dddaa594a5f2b4af73df66e02d26a1e3b67c77969\
         f34418fcfbb124436e00e24a2509448d76bba6e7069e6e88e9c161480e8af33a\
         df4a176e45c43b35a714fe98c318a40b561bd522f4cc862e62532f1b55fed8b5",
        ss: "0736996bac088bc5d4801380eee69869d2cbb7d4762b250d1cb6787ca7322bb2",
        ss_changed: "abb634775ad45c360c535f0a59fa7327b71e97bc29ae98661da0d7a2653d4b50",
    },
];

const ANSWERS_1024: [Answer; 2] = [
    Answer {
        d: "4156d4e05a26d1133c7558d28b34f6c27ca6fb6e85a1de2f3e729d409060fbf8",
        z: "09dec7d49d83efed57d6aa550518e5130da36cd58162c8eacc1f22caf7842615",
        ek_digest: "869b9c0cfb887287ee9738b0aeb637e9c0e9b904d08f5f54dc31e155b2ded01e",
        ct: "dbd9233b5804be1132c7db01752218bf700b623b9d3f4cc08d1aaf90ee5bbf68\
         fb4238d5a687e9c186187b2f7937361f1f44563546b504ca0d85032c7a2da4a5\
         d278b6367bfcdc748fa5f5c51b991e6e59393be0fb7e0552158cb83adc7e9274\
         f008306b06cdac1b40802764018fa5e5ee44531903948f9248ed272db2fc10f5\
         1bcf4d570034f01b75f2a789b1fe5910aa20f6f5ee0227a7f45feea02a8042eb\
         352f27fc0920727a4fafcc7388dadf6304f6662b6de26f21d6cad28a992b2525\
         dd57e76ebc3877ed8ffdb73dc98494b51087c573514027224ca5832e2678b65a\
         398523f7e7eb9a7120ffa5a249ab3a2575364e1ea5d389d39ab506e25de9c09e\
         1ff37f73c409245e81de3a6c3b0208158d7a4c1d74d70b0dc306aaeff554f49f\
         57d7b037c10cb356196d1023df8de5d30789449f19478247affd8d3433cb826b\
         a2c9b1ac664c636396f3cf0cc3d9e68d44e634ecdb5cf26cbf93e2847aa28c4e\
         6b4ef38075411911875ddeac5d753d6526f8f7a14ab06a54df6e2ad3f258ea42\
         68ad91037a9cc1fa93381c6a32398d1ce922c0a15e017c01f0f5f53724d7566a\
         915235091a8b156265293ccbc8a0bba6f68f6089ae627698f2807320926757bb\
         73c392ffff1b41ccebe2756ac5492254a4c623b2e11c5cbf3b45e5e2c485ce31\
         892d506c8d2bde7c76eaac53e95b930d550bbccc57d58c0315fe73beb5a0f318\
         d6ea2474aaba266241e9f0ace201422e44b0fbab561afbfe9003e18a9bd242bf\
         b2bae086b6e5c8e12b1bd7bab1a768e9048e18adfcbdebc21d4985cd54fb178c\
         858c30e8497096adea17c00e6fb608ab4010bf8a8306708c2926d042058aa337\
         7cb0493525c822b47f684b09c359b4113234bb0829c8f7720c20dada58f42291\
         943be003537b7f88c8c2e8aa2cbe5b9184ba09564ddba6f46c5e0979d9a6acb9\
         5dd41b5b0a1bddc4f23c91540fd4eaa61c4415a96af762cea2a5f5688c451ce4\
         7c5202ae1fd552cb8770c8c18505d2dc98dea2994985210e6f3c2871acca5da0\
         0916717576cd61bf13e2ab1c8991fd115ae2d97e4dd4a3c7ad2f83cd5029df5e\
         4abdc377e067cf6471724709ff4f7abb2a5dea1f89608efc0368181e4aba4efb\
         ed3a999dbb463d8207e81bb81c6475915a78fbb30bebe36796f51d08addeb13c\
         c2ea415b5b32c148a59750ebabe39ec8b33fe27ad6a73bd8ac71265407fced9b\
         13a4a60c62521859f5df45a7776f79991e55b6015f81c411c5b9f3f4e7e00413\
         a16e3f1c523bfd90228e4b298c39006e3d938a75ad4ceb826b2744117fa42881\
         45a4a688a26ca044be87ac3c1b435bc625b4a30361abaee5b39ae1d3e7d202a4\
         e11bb2f2f6ec9d1caf93266a6b60ddbce251432046b9380a2fe76ee8c4be9cb6\
         a370f6fd382f175a2e29d7b5fb34ce80bbca82defd6865d987df2a1cc2c6fd2e\
         f32b129f2ffbc74c4db5f82537228b338933a824279c01d4bee5e616ab782ed4\
         e14c29490e11e0f88ae240d4034430c91e058a59007f572876b5929a8b4bd587\
         4ea30b24768d8d5f095176d24ed6d136d1ca0e00a13e12ea2bdcf9bdbefdbef9\
         69aaa50bde8768f12f028462a5f157ad21ea15bc0349c9e65f323c61e4aa8de7\
         82f1500ba2d2ae072b9fdb5ecf3446be0e1fb0feb92faf9b0e574a89c7ebc478\
         b793c6b0fab86e881b28288e594d5dcac8492e7ce19f0b98b56b5a1eb9c50115\
         7c6f6f9b714511806eaca0e2defcdd113c7fd0ab6b52c7722e7d7ea84b8b1e83\
         dcebc72adf9d9342b87799e83445a422f0eb3a490f15f5775227b42ab7a645d8\
         e1c59992b9da8a77e44527324baa5f4eb8b6cdeedd4aeeaa1c5c125f4cfbed42\
         10faa2136302d4cb18f9556d15e1f5614b88268b2545d68cad942292e2e0efa9\
         1c8b7a0bd398344d13ac3f118a507de932d37eee22da66d13b2655f28c8b3ea3\
         24efb26b5cd6b99d65d8620177542e334cc3afff04c3ae21ba1c339259ce2dab\
         cc2db47dc5ac57487e64897183a86ec12a9f2ef528af95595f58b900cc709cfa\
         be2e08cc6af732ce93a82617cd83e53b06ba9edcd79c1f75c7dce53fd94cd89b\
         26264f85ccf8a796465ce1aa6c23c96ec7b73f1fa1cc4140e19a171f700d1ae4\
         3da1017f3eea99617b88d3a564fe5bf06c7efebfa027a9900686e31c85f5e15e\
         315a8e9d1d72bca9e542f2dd95205bf1f673754faf6ca14e2bbee9f055157164",
        ss: "57d999a51bf037cb2d5669365c7c7301148fbfe56c22b51a61dbbebf8a5a80ac",
        ss_changed: "193f7fcde8f9a81c9ce2c6156a0a5ff606989d4a17f0ff9d5e4d58ba337c3c02",
    },
    Answer {
        d: "c361ae4dffca005e65f4807ff5cff3edf253c5ed7548208c4f6ed4676b6a2534",
        z: "146bed64930fd5a6347feef105ba5c4f7c2a0433ee3527f9fa3e035937bc6b38",
        ek_digest: "1ec96c4946335cc7a8b72f1472e08828549c2a79030855f06d8321aad30cd4e6",
        ct: "dc9ff3fd2dee888fedb9ab6f33a580060c3043acd9f69270eb140099fa985c30\
         e6dc6474b69ca38ba96d5aaa0b81a215e880447a81ba54fac7bb162f1f84412e\
         5c534c22439c5bc6434002e786c7ad6d5a9d2af5b7bd115dba6f216a5e44a079\
         4674b98a1472368c1bd1cc0338219737b2d5507b3b9f3ffc22e8cc707f19fb14\
         f5e5929b0536a2e9acd98b0e13e0d7b35c562639e48bb24db8aa74d63986232b\
         bb545bae5b95323854701be44b9434ff98745359bdf1ade7a581221ed8a142a4\
         9720df254d6967a80ff0b12098bac90963a343f6c4fbc47836df407f89478c52\
         68948a6ee61a4f972d5a356d76d7719b9a2718bb140ad3c094132dc8da47093a\
         fa3e90e5c09c52fd9839c6b6f1469359d6b470b5d93871f7fbff5235cd899615\
         c0c88d4d3621f52be9fabb9ff6be64fc1a85e50e82696725dac0b2a0bcdfaae3\
         72d08d36aa7d3bb2c82b4b50aefdd1578c7af01fb78f1c7413c7aeba158d4e03\
         dbba43b535d483565b9d511e54a48ee4625964a6a92bc28d03099ccf76d2d68c\
         18bda966846628a1d000c6d1617623a1cb2112a2d69132f121555635a8bfb0de\
         2269b25f6db13c1965943dc48d91be09fe9277364bf2c3d433ff70153f2e4460\
         722520b17c46ec50e6bec109d03fbe39525743e241e60fc60c18a9dbeba8ce8c\
         4c9b82d9ed33a7fd3d4ebbc2cd9a153a79bfb1ecbc39bc4a8ff50f39ff4806b3\
         715dcd4b2fa10e499f932308cd003ada30fbdbdd0271933cbbd3e3157b9b98a4\
         fca08cdc71971780d6f0e833c0ec6ed633789360a7f81b7982846de133555a96\
         17a987104346446449bb7f18d80f82fbb415c693bccf7fe2066046df0a83ef08\
         fb615ab70fb58171fb92132fd86286bdf70c3d60230064a4cda0c6d05b7fe8c3\
         5acea60560e7547b0177b7263912a633f88253173d654f4520c67bd2474c9842\
         c164a2ab686d79703b199f177d0b95d2b46b3a3fb656d188df0194f03f39bedd\
         968e9cbf11c6a287a43dfb9f5d9c28e91eb0b8520e3eb43766d82b32fb6f6fc0\
         f79b4622430034713d04186cb224c6b2b8bc5da090a9d494fe3b85b9bc374b84\
         d9e7a2ea3f0591688be6b3ec44d09becef3f0285698698ab6af06051ee18e82c\
         497b2733667fca67e22ac91e1bdfe8cd731e6b73a1202602df545abc972916db\
         468763dd74bd4ff334218583e3c36e00ed2230931d7a1f0366abf586eeb3c37d\
         8f1e9a21530290d11941624cecea3126349ba505cbb49697c82da4991181dcb5\
         1e5511af6dc70675af91f17cef87543423d73664506cf2693526a414607d1f5f\
         bd9a05beebd2aa5c2c0f32613d8ce35865895cba8904b1190eb3a6a12c0d114d\
         28b21884f776942fc8d980e3eb20ab268677a557974f77972c6e8681fa1c079b\
         7326145aafe2317e9952d844445361ef5d94691319d59f1dae9e544092ca975b\
         878c94f6653af471be11db25815ae321c056d8bba6307d758ae7bef071c7e02c\
         857291a5efa89c9f2ac7b00c4969449eafc89007ec1b89599f57e4bfd70081f5\
         142afb8d4ba3c8d19c82b91db187ab3cf27ff0d90ab469ca725eabfee7d64037\
         76c8540db87b8b986148b99eb6e16ecf1524597f26ce549bc25a9d15ebaf5b2d\
         36b06d2759a3269072b3edc8cb3cb85f654217b8c0ff1d18111878bb5f861b76\
         c6d873a9fbc65f9c1505210e02f53020d0c147fb8a31ba279b04724a2633baf1\
         41214fc4f2c5e208f90d3e10f7915a263b930eaa32c7cd21bf865c2b1bf7589b\
         ef444ffc3db0011596383bb548125396c14278d2c0f504944650567ac21b9e1e\
         31474e3331b281cd8830446bd13c9829ac2621cdf9ed768349eeafc5bea77217\
         36a1486761191a73e5070a84f8cf1f218a45b453d870989fd8a7bf7c7b7b451a\
         b8d5f89cde3b1837ef0d5afc60798cc63e2e2070b9d2a4dafe55ab31945e577d\
         06150ec7c63b2f45ff0d5cd9ad41cd4f7fcb2b27ac2dcbbe7c545744b5182371\
         82941e41556951e9327772c9d31ac2621363a4a2a5a279b987c254c267a194a5\
         e8a97ed6be82e90f79042bf61cd2008dfdd8e4a05194e0984b3483fb6e77a0f0\
         2f354cef4c5abcc8f904e882021d5ab53dab8c4f29bc1ac72058eac11e9f67e2\
         986e01ff5c7b283047c1c9afb7b1d8c5dc43c762e8b29569c9df064a4f777e86\
         11ca6eab23749811e82bcd58b448672b36f9a93094141855e5e50c43b76994eb",
        ss: "991eb2660e8ed2c4bcce96eceb1987ba584b0bac4405d122441e87558e11d05c",
        ss_changed: "cb7761c5cb3622739a17f2786d38b24c20d7fa50d2cbe12d2f5f459722677b1d",
    },
];

#[test]
fn known_answers_768() {
    for a in ANSWERS_768.iter() {
        let d: [u8; 32] = unhex(a.d).try_into().unwrap();
        let z: [u8; 32] = unhex(a.z).try_into().unwrap();
        let (ek, dk) = ml_kem_768::KG::keygen_from_seed(d, z).unwrap();
        assert_eq!(Sha3_256::digest(ek.into_bytes()).to_vec(), unhex(a.ek_digest));

        let ct = unhex(a.ct);
        let ss = dk.try_decaps(&ml_kem_768::CipherText::try_from_bytes(ct.clone().try_into().unwrap()).unwrap());
        assert_eq!(ss.unwrap().into_bytes().to_vec(), unhex(a.ss));

        let mut changed = ct;
        changed[7] ^= 0x20;
        let ss = dk.try_decaps(&ml_kem_768::CipherText::try_from_bytes(changed.try_into().unwrap()).unwrap());
        assert_eq!(ss.unwrap().into_bytes().to_vec(), unhex(a.ss_changed));
    }
}

#[test]
fn known_answers_1024() {
    for a in ANSWERS_1024.iter() {
        let d: [u8; 32] = unhex(a.d).try_into().unwrap();
        let z: [u8; 32] = unhex(a.z).try_into().unwrap();
        let (ek, dk) = ml_kem_1024::KG::keygen_from_seed(d, z).unwrap();
        assert_eq!(Sha3_256::digest(ek.into_bytes()).to_vec(), unhex(a.ek_digest));

        let ct = unhex(a.ct);
        let ss = dk.try_decaps(&ml_kem_1024::CipherText::try_from_bytes(ct.clone().try_into().unwrap()).unwrap());
        assert_eq!(ss.unwrap().into_bytes().to_vec(), unhex(a.ss));

        let mut changed = ct;
        changed[7] ^= 0x20;
        let ss = dk.try_decaps(&ml_kem_1024::CipherText::try_from_bytes(changed.try_into().unwrap()).unwrap());
        assert_eq!(ss.unwrap().into_bytes().to_vec(), unhex(a.ss_changed));
    }
}

// The ciphertexts that these encapsulations give decapsulate, in OpenSSL and
// under the key of the same seeds, to these shared secrets.
#[test]
fn encapsulation_known_answers_768() {
    let (ek, dk) = ml_kem_768::KG::keygen_from_seed([1u8; 32], [2u8; 32]).unwrap();
    let (ss, ct) = ek.encaps_from_seed(&[3u8; 32]);
    let ss_again = dk.try_decaps(&ct).unwrap();
    assert_eq!(
        Sha3_256::digest(ct.into_bytes()).to_vec(),
        unhex("e7602b781fadc526ddb1125db569f8107f8efb2c0988cb796af3c1c19ad6ba3d")
    );
    let want = unhex("f39b95557ee52af1954cd59f19febcb39f127e4abefc6f90546e7b8139ce94ba");
    assert_eq!(ss.into_bytes().to_vec(), want);
    assert_eq!(ss_again.into_bytes().to_vec(), want);
}

#[test]
fn encapsulation_known_answers_1024() {
    let (ek, dk) = ml_kem_1024::KG::keygen_from_seed([1u8; 32], [2u8; 32]).unwrap();
    let (ss, ct) = ek.encaps_from_seed(&[3u8; 32]);
    let ss_again = dk.try_decaps(&ct).unwrap();
    assert_eq!(
        Sha3_256::digest(ct.into_bytes()).to_vec(),
        unhex("5b22bffe64dbfb24847c83d7074dd17770058524bc34e327eb709ab2deb79592")
    );
    let want = unhex("d1180e60410880516e234bbebf268aa76a1e0c4802c1af0fc0f6846d3274db8a");
    assert_eq!(ss.into_bytes().to_vec(), want);
    assert_eq!(ss_again.into_bytes().to_vec(), want);
}
